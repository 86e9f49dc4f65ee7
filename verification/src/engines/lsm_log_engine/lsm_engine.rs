//! The LSM engine: the write path (WAL, memtable, role swap, minor
//! compaction), the read path and recovery.
//!
//! The engine never touches the file system. It works on in-memory
//! images of the write-ahead log and the level-0 files, and records
//! the disk writes and deletions the caller must perform, in order, in
//! a pending-operation list.

use vstd::prelude::*;
use vstd::string::StrSliceExecFns;
use vstd::utf8::*;

use crate::common::fn_util::{str_eq, SequenceGen};
use crate::common::WiscError;
use crate::engines::lsm_log_engine::level::{
    level0_encode, read_level0, seconds, spec_l0_encode, spec_l0_parse, LevelDir,
    LEVEL_0_FILE_MAX_NUM, LEVEL_0_FILE_MAX_SIZE,
};
use crate::engines::lsm_log_engine::mem::{no_entries, spec_str_lt, MemTables};
use crate::engines::lsm_log_engine::wal_log::{
    key_views, lemma_wal_recovery_exact, spec_add_process, spec_encode_key, spec_read_log,
    wal_build, DataType, Key, KeyM, LogRecordRead, LogRecordWrite, RecordType, WalImage,
    BLOCK_SIZE,
    LOG_FILE_MAX_SIZE,
};
use crate::engines::{KvsEngine, Scans};

verus! {

/// One disk action the caller must perform. The engine appends these
/// to its pending list in the order they must reach the file system.
/// A segment deletion comes only after the level-0 write that
/// preserves its records; on a roll both come before the first append
/// to the fresh log file, so at most one log file exists on disk at
/// any moment, whatever instant a crash picks.
#[derive(Debug)]
pub enum DiskOp {
    /// Append `bytes` to the log file named `{seg}.xlog`, creating it
    /// first when absent, and flush.
    AppendWal { seg: i64, bytes: Vec<u8> },
    /// Append `bytes` to the level-0 file named `{name}.data`,
    /// creating it first when absent, and flush.
    AppendLevel0 { name: i64, bytes: Vec<u8> },
    /// Delete the log file named `{seg}.xlog`.
    DeleteWal { seg: i64 },
}

/// The content of the key that `set`/`remove` builds: the texts, the
/// kind code and the sequence number it is stamped with.
pub open spec fn made_key(key: Seq<char>, value: Seq<char>, dt: u8, s: i64) -> KeyM {
    KeyM {
        internal_key_size: (encode_utf8(key).len() + 9) as u64,
        key,
        sequence: s,
        data_type: dt,
        value_size: encode_utf8(value).len() as u64,
        value,
    }
}

/// The contents of each entry of a table.
pub open spec fn entry_views(m: Map<Seq<char>, Key>) -> Map<Seq<char>, KeyM> {
    Map::new(|k: Seq<char>| m.dom().contains(k), |k: Seq<char>| m[k]@)
}

/// The map that replaying `entries` in order builds: each record is
/// put at its sort key, later records overwriting earlier ones.
pub open spec fn replay_map(entries: Seq<KeyM>) -> Map<Seq<char>, KeyM>
    decreases entries.len(),
{
    if entries.len() == 0 {
        Map::empty()
    } else {
        replay_map(entries.drop_last()).insert(entries.last().sort_key(), entries.last())
    }
}

/// Replaying `entries` on top of an existing table.
pub open spec fn replay_into(base: Map<Seq<char>, KeyM>, entries: Seq<KeyM>) -> Map<
    Seq<char>,
    KeyM,
>
    decreases entries.len(),
{
    if entries.len() == 0 {
        base
    } else {
        replay_into(base, entries.drop_last()).insert(entries.last().sort_key(), entries.last())
    }
}

/// Replaying onto an empty table is plain replaying.
pub proof fn lemma_replay_into_empty(entries: Seq<KeyM>)
    ensures
        replay_into(Map::empty(), entries) == replay_map(entries),
    decreases entries.len(),
{
    if entries.len() > 0 {
        lemma_replay_into_empty(entries.drop_last());
    }
}

/// `es` enumerates the table `m` exactly, in strictly ascending
/// sort-key order: what draining an immutable memtable hands out.
pub open spec fn sorted_snapshot_of(es: Seq<(String, Key)>, m: Map<Seq<char>, Key>) -> bool {
    &&& forall|i: int| 0 <= i < es.len() ==> m.contains_pair((#[trigger] es[i]).0@, es[i].1)
    &&& forall|k: Seq<char>|
        m.dom().contains(k) ==> exists|i: int| 0 <= i < es.len() && (#[trigger] es[i]).0@ == k
    &&& forall|i: int, j: int|
        0 <= i < j < es.len() ==> spec_str_lt((#[trigger] es[i]).0@, (#[trigger] es[j]).0@)
}

/// After a flush, the level-0 images have grown by exactly the flushed
/// bytes: either appended to the last file, which still had room, or
/// as one new file at the end.
pub open spec fn level0_updated(
    before: Seq<(i64, Vec<u8>)>,
    after: Seq<(i64, Vec<u8>)>,
    l0: Seq<u8>,
) -> bool {
    let appended = before.len() > 0 && before.last().1@.len() <= LEVEL_0_FILE_MAX_SIZE;
    if appended {
        &&& after.len() == before.len()
        &&& (forall|i: int| 0 <= i < before.len() - 1 ==> after[i] == before[i])
        &&& after.last().0 == before.last().0
        &&& after.last().1@ == before.last().1@ + l0
    } else {
        &&& after.len() == before.len() + 1
        &&& (forall|i: int| 0 <= i < before.len() ==> after[i] == before[i])
        &&& after.last().1@ == l0
    }
}

/// What one write leaves behind, shared by `set` and `remove`. With
/// `s0` the engine before and `s1` the engine after:
///
/// - The write succeeds unless the sequence counter is exhausted, the
///   key is too large for its length field, or the append would roll
///   the log while level 0 is at capacity; a refused write changes
///   nothing.
/// - On success, a key carrying the texts and the next sequence number
///   is appended to the WAL image exactly as the fragmentation spec
///   says, then put into the mutable table at its sort key.
/// - When the old log file had already reached 4 MiB the append
///   rolls: the table roles swap, the old mutable table is drained,
///   in sort-key order, into a level-0 image, and the pending list
///   gains the level-0 append, then the deletion of the consumed log
///   segment, then the append to the fresh log file — so the old
///   segment's records are durable in level 0 before it goes, and no
///   two log files ever rest on disk together.
pub open spec fn set_contract(
    s0: LsmLogEngine,
    s1: LsmLogEngine,
    r: Result<(), WiscError>,
    key: Seq<char>,
    value: Seq<char>,
    dt: u8,
) -> bool {
    let m = made_key(key, value, dt, s0.sequence.val);
    let sk = m.sort_key();
    let rolled = s0.wal_writer.file_bytes@.len() >= LOG_FILE_MAX_SIZE;
    let c_exhausted = s0.sequence.val >= i64::MAX - 3;
    let c_oversize = encode_utf8(key).len() + encode_utf8(value).len() + 25 > u64::MAX;
    let c_full = s0.level_0_files@.len() >= LEVEL_0_FILE_MAX_NUM && s0.level_0_files@.last().1@.len()
        > LEVEL_0_FILE_MAX_SIZE;
    &&& (r is Ok <==> !c_exhausted && !c_oversize && !(rolled && c_full))
    &&& (c_exhausted ==> r matches Err(WiscError::SequenceExhausted))
    &&& (!c_exhausted && c_oversize ==> r matches Err(WiscError::OversizeRecord))
    &&& (!c_exhausted && !c_oversize && rolled && c_full ==> r matches Err(
        WiscError::NotImplemented,
    ))
    &&& (r is Ok ==> {
        &&& m.sequence == s0.sequence.val
        &&& s1.sequence.val > s0.sequence.val
        &&& s1.issued@ == s0.issued@.push(m.sequence)
        &&& s1.wal_keys@ == (if rolled {
            seq![m]
        } else {
            s0.wal_keys@.push(m)
        })
        &&& s1.mem_tables.mut_entries().dom() == (if rolled {
            Set::<Seq<char>>::empty()
        } else {
            s0.mem_tables.mut_entries().dom()
        }).insert(sk)
        &&& s1.mem_tables.mut_entries().dom().contains(sk)
        &&& s1.mem_tables.mut_entries()[sk]@ == m
        &&& (!rolled ==> forall|k: Seq<char>|
            k != sk && #[trigger] s0.mem_tables.mut_entries().dom().contains(k)
                ==> s1.mem_tables.mut_entries()[k] == s0.mem_tables.mut_entries()[k])
        &&& ({
            let base_last = if rolled {
                RecordType::Empty
            } else {
                s0.wal_writer.last_record_type
            };
            let base_rest: int = if rolled {
                BLOCK_SIZE as int
            } else {
                s0.wal_writer.block_writer_rest_len as int
            };
            let base_file: Seq<u8> = if rolled {
                Seq::empty()
            } else {
                s0.wal_writer.file_bytes@
            };
            s1.wal_writer.file_bytes@ == base_file + spec_add_process(
                base_last,
                base_rest,
                spec_encode_key(m),
            ).out
        })
        &&& s1.pending@.len() == s0.pending@.len() + (if rolled {
            3int
        } else {
            1int
        })
        &&& (forall|i: int| 0 <= i < s0.pending@.len() ==> s1.pending@[i] == s0.pending@[i])
        &&& (!rolled ==> {
            &&& (s1.pending@[s0.pending@.len() as int] matches DiskOp::AppendWal { seg, bytes }
                && seg == s1.wal_writer.block_writer_file && bytes@
                == s1.wal_writer.file_bytes@.skip(s0.wal_writer.file_bytes@.len() as int))
            &&& s1.level_0_files@ == s0.level_0_files@
            &&& s1.wal_writer.block_writer_file == s0.wal_writer.block_writer_file
        })
        &&& (rolled ==> exists|es: Seq<(String, Key)>|
            {
                let l0 = spec_l0_encode(key_views(seconds(es)));
                &&& #[trigger] sorted_snapshot_of(es, s0.mem_tables.mut_entries())
                &&& (s1.pending@[s0.pending@.len() as int] matches DiskOp::AppendLevel0 {
                    name,
                    bytes,
                } && bytes@ == l0)
                &&& (s1.pending@[s0.pending@.len() as int + 1] matches DiskOp::DeleteWal { seg } && seg
                    == s0.wal_writer.block_writer_file)
                &&& (s1.pending@[s0.pending@.len() as int + 2] matches DiskOp::AppendWal {
                    seg,
                    bytes,
                } && seg == s1.wal_writer.block_writer_file && bytes@
                    == s1.wal_writer.file_bytes@)
                &&& level0_updated(s0.level_0_files@, s1.level_0_files@, l0)
            })
    })
}

/// The storage engine. All state lives in memory; the `pending` list
/// carries the disk writes the caller must apply (in order, flushing
/// each) before acknowledging the operation that produced them.
pub struct LsmLogEngine {
    /// The WAL write half: the image of the current log file.
    pub wal_writer: LogRecordWrite,
    /// The WAL read half used during recovery at open.
    pub wal_reader: LogRecordRead,
    /// The mutable/immutable in-memory table pair.
    pub mem_tables: MemTables,
    /// The images of the level-0 files: name number and content,
    /// oldest first.
    pub level_0_files: Vec<(i64, Vec<u8>)>,
    /// The process-wide sequence source.
    pub sequence: SequenceGen,
    /// Disk actions not yet handed to the caller.
    pub pending: Vec<DiskOp>,
    /// Every sequence number this engine has stamped onto a key, in
    /// the order they were handed out.
    pub issued: Ghost<Seq<i64>>,
    /// The keys appended to the current log segment, in order.
    pub wal_keys: Ghost<Seq<KeyM>>,
    /// What the mutable table held when the current log segment
    /// started: the recovery of the previous segment, or nothing.
    pub recovered_base: Ghost<Map<Seq<char>, KeyM>>,
}

impl LsmLogEngine {
    /// A record the read path can see: an entry of either in-memory
    /// table, or a record of a level-0 file image.
    pub open spec fn is_candidate(&self, m: KeyM) -> bool {
        ||| exists|sk: Seq<char>|
            #[trigger] self.mem_tables.mut_entries().dom().contains(sk)
                && self.mem_tables.mut_entries()[sk]@ == m
        ||| exists|sk: Seq<char>|
            #[trigger] self.mem_tables.imu_entries().dom().contains(sk)
                && self.mem_tables.imu_entries()[sk]@ == m
        ||| exists|i: int|
            0 <= i < self.level_0_files@.len() && spec_l0_parse(
                (#[trigger] self.level_0_files@[i]).1@,
            ).contains(m)
    }

    /// `m` is a record for `k` that no other record for `k` outranks:
    /// what `get` goes by.
    pub open spec fn wins(&self, m: KeyM, k: Seq<char>) -> bool {
        &&& self.is_candidate(m)
        &&& m.key == k
        &&& forall|m2: KeyM| self.is_candidate(m2) && m2.key == k ==> m2.sequence <= m.sequence
    }

    /// The engine's invariant: the table pair is in a clean two-role
    /// state, the immutable side is drained, the WAL image is
    /// block-consistent, every stored key is well formed, and the
    /// sequence numbers handed out so far strictly increase and stay
    /// below the counter.
    pub open spec fn wf(&self) -> bool {
        &&& self.mem_tables.wf()
        &&& self.wal_writer.wf()
        &&& self.mem_tables.imu_entries() == no_entries()
        &&& forall|sk: Seq<char>|
            #[trigger] self.mem_tables.mut_entries().dom().contains(sk)
                ==> self.mem_tables.mut_entries()[sk].wf()
        &&& forall|i: int, j: int|
            0 <= i < j < self.issued@.len() ==> self.issued@[i] < self.issued@[j]
        &&& forall|i: int|
            0 <= i < self.issued@.len() ==> #[trigger] self.issued@[i] < self.sequence.val
        &&& self.wal_writer.file_bytes@ == wal_build(self.wal_keys@).file
        &&& self.wal_writer.last_record_type == wal_build(self.wal_keys@).last
        &&& self.wal_writer.block_writer_rest_len as int == wal_build(self.wal_keys@).rest
        &&& forall|i: int| 0 <= i < self.wal_keys@.len() ==> (#[trigger] self.wal_keys@[i]).wf()
        &&& forall|i: int|
            0 <= i < self.wal_keys@.len() ==> spec_encode_key(#[trigger] self.wal_keys@[i]).len()
                <= u64::MAX
        &&& entry_views(self.mem_tables.mut_entries()) == replay_into(
            self.recovered_base@,
            self.wal_keys@,
        )
    }

    /// Opens the engine over what the caller found on disk: the bytes
    /// of the surviving log file, if any, and the level-0 file images
    /// (name number and content, oldest first).
    ///
    /// Recovery replays the surviving log into the initial mutable
    /// memtable; the caller is expected to delete the consumed log
    /// file afterwards, leaving the writer's fresh file as the only
    /// one. The sequence counter is seeded from the wall clock.
    ///
    /// Opening is refused only when a supplied log image is too large
    /// to walk with a block cursor, or when the wall clock hands the
    /// sequence counter its very last value — the one failure that
    /// depends on the outside world.
    pub fn open(wal_file: Option<Vec<u8>>, level_0_files: Vec<(i64, Vec<u8>)>) -> (r: Result<
        LsmLogEngine,
        WiscError,
    >)
        ensures
            r is Err ==> (r matches Err(WiscError::SequenceExhausted)) || (wal_file matches Some(f)
                && f@.len() + BLOCK_SIZE > usize::MAX && r matches Err(WiscError::OversizeRecord)),
            (wal_file matches Some(f) && f@.len() + BLOCK_SIZE > usize::MAX) ==> r is Err,
            r matches Ok(e) ==> {
                &&& e.wf()
                &&& entry_views(e.mem_tables.mut_entries()) == replay_map(
                    match wal_file {
                        Some(f) => spec_read_log(f@),
                        Option::None => Seq::<KeyM>::empty(),
                    },
                )
                &&& e.level_0_files@ == level_0_files@
                &&& e.wal_writer.file_bytes@ == Seq::<u8>::empty()
                &&& e.pending@ == Seq::<DiskOp>::empty()
                &&& e.issued@ == Seq::<i64>::empty()
            },
    {
        let mut sequence = SequenceGen::new();
        if sequence.val >= i64::MAX {
            return Err(WiscError::SequenceExhausted);
        }
        match &wal_file {
            Some(f) => {
                if f.len() > usize::MAX - BLOCK_SIZE {
                    return Err(WiscError::OversizeRecord);
                }
            },
            Option::None => {},
        }
        let wal_writer = LogRecordWrite::new(&mut sequence);
        let mut wal_reader = LogRecordRead::new(wal_file);
        if wal_reader.read_log().is_err() {
            return Err(WiscError::Truncated);
        }
        let mut mem_tables = MemTables::new();
        let ghost all = key_views(wal_reader.recovery_data@);
        let mut i: usize = 0;
        proof {
            assert(all.take(0) =~= Seq::<KeyM>::empty());
            assert(entry_views(mem_tables.mut_entries()) =~= replay_map(all.take(0)));
        }
        while i < wal_reader.recovery_data.len()
            invariant
                i <= wal_reader.recovery_data@.len(),
                all == key_views(wal_reader.recovery_data@),
                mem_tables.wf(),
                mem_tables.imu_entries() == no_entries(),
                forall|k: int|
                    0 <= k < wal_reader.recovery_data@.len() ==> (
                    #[trigger] wal_reader.recovery_data@[k]).wf(),
                entry_views(mem_tables.mut_entries()) == replay_map(all.take(i as int)),
                forall|sk: Seq<char>|
                    #[trigger] mem_tables.mut_entries().dom().contains(sk)
                        ==> mem_tables.mut_entries()[sk].wf(),
            decreases wal_reader.recovery_data@.len() - i,
        {
            let k = &wal_reader.recovery_data[i];
            mem_tables.add_record(k);
            i = i + 1;
            proof {
                assert(all.take(i as int).drop_last() =~= all.take(i - 1));
                assert(all.take(i as int).last() == wal_reader.recovery_data@[i - 1]@);
                assert(entry_views(mem_tables.mut_entries()) =~= replay_map(all.take(i as int)));
            }
        }
        proof {
            assert(all.take(wal_reader.recovery_data@.len() as int) =~= all);
        }
        proof {
            assert(wal_writer.file_bytes@ == wal_build(Seq::<KeyM>::empty()).file);
        }
        Ok(
            LsmLogEngine {
                wal_writer,
                wal_reader,
                mem_tables,
                level_0_files,
                sequence,
                pending: Vec::new(),
                issued: Ghost(Seq::empty()),
                wal_keys: Ghost(Seq::empty()),
                recovered_base: Ghost(entry_views(mem_tables.mut_entries())),
            },
        )
    }

    /// The shared write path of `set` and `remove`.
    #[verifier::spinoff_prover]
    #[verifier::rlimit(100)]
    fn put_internal(&mut self, key: &str, value: &str, data_type: DataType) -> (r: Result<
        (),
        WiscError,
    >)
        requires
            old(self).wf(),
        ensures
            final(self).wf(),
            r is Err ==> *final(self) == *old(self),
            set_contract(*old(self), *final(self), r, key@, value@, data_type.code_spec()),
    {
        let ghost s0 = *self;
        if self.sequence.val >= i64::MAX - 3 {
            return Err(WiscError::SequenceExhausted);
        }
        let key_bytes = key.as_bytes_vec();
        let value_bytes = value.as_bytes_vec();
        if key_bytes.len() as u128 + value_bytes.len() as u128 + 25 > u64::MAX as u128 {
            return Err(WiscError::OversizeRecord);
        }
        let old_len: usize = self.wal_writer.file_bytes.len();
        let rolling = old_len as u64 >= LOG_FILE_MAX_SIZE;
        if rolling {
            // refuse up front when level 0 has no room for the flush,
            // so that a refused write changes nothing
            let n = self.level_0_files.len();
            if n >= LEVEL_0_FILE_MAX_NUM && self.level_0_files[n - 1].1.len() as u64
                > LEVEL_0_FILE_MAX_SIZE {
                return Err(WiscError::NotImplemented);
            }
        }
        let internal_key = Key::new(key.to_owned(), value.to_owned(), data_type, &mut self.sequence);
        let ghost m = internal_key@;
        proof {
            assert(m == made_key(key@, value@, data_type.code_spec(), s0.sequence.val));
        }
        let wal_result = self.wal_writer.add_records(&internal_key, &mut self.sequence);
        let from: usize = if rolling {
            0
        } else {
            old_len
        };
        let appended = self.appended_wal_bytes(from);
        proof {
            if rolling {
                assert(appended@ =~= self.wal_writer.file_bytes@);
            }
        }
        let seg_now = self.wal_writer.write_log_path();
        match wal_result {
            Ok(Some(old_seg)) => {
                // the log rolled: swap roles, drain the now-immutable
                // table to level 0, let the old segment go, and only
                // then start the fresh log file on disk
                self.mem_tables.exchange();
                let entries = self.mem_tables.drain_imu();
                let l0_bytes = level0_encode(&entries);
                let ghost es = entries@;
                let bytes_again = vstd::slice::slice_to_vec(l0_bytes.as_slice());
                let n = self.level_0_files.len();
                let append_to_last = n > 0 && self.level_0_files[n - 1].1.len() as u64
                    <= LEVEL_0_FILE_MAX_SIZE;
                if append_to_last {
                    let name = self.level_0_files[n - 1].0;
                    let mut tail = l0_bytes;
                    self.level_0_files[n - 1].1.append(&mut tail);
                    self.pending.push(DiskOp::AppendLevel0 { name, bytes: bytes_again });
                } else {
                    let mut files: Vec<(i64, u64)> = Vec::new();
                    let mut i: usize = 0;
                    while i < self.level_0_files.len()
                        invariant
                            i <= self.level_0_files@.len(),
                            files@.len() == i,
                        decreases self.level_0_files@.len() - i,
                    {
                        let fname = self.level_0_files[i].0;
                        let flen = self.level_0_files[i].1.len() as u64;
                        files.push((fname, flen));
                        i = i + 1;
                    }
                    let picked = LevelDir::new(0).init_level_0_writer(&files, &mut self.sequence);
                    let name = match picked {
                        Ok(pair) => pair.0,
                        Err(_) => {
                            // not reached: the at-capacity case was
                            // refused before anything changed
                            0
                        },
                    };
                    self.level_0_files.push((name, l0_bytes));
                    self.pending.push(DiskOp::AppendLevel0 { name, bytes: bytes_again });
                }
                self.pending.push(DiskOp::DeleteWal { seg: old_seg });
                proof {
                    assert(sorted_snapshot_of(es, s0.mem_tables.mut_entries()));
                }
            },
            Ok(Option::None) => {},
            Err(_) => {},
        }
        self.pending.push(DiskOp::AppendWal { seg: seg_now, bytes: appended });
        self.mem_tables.add_record(&internal_key);
        proof {
            vstd::bytes::lemma_auto_spec_u64_to_from_le_bytes();
            self.issued@ = s0.issued@.push(m.sequence);
            assert(spec_encode_key(m).len() == encode_utf8(key@).len() + encode_utf8(
                value@,
            ).len() + 25);
            assert(spec_encode_key(m).len() <= u64::MAX);
            if rolling {
                self.wal_keys@ = seq![m];
                self.recovered_base@ = Map::empty();
                assert(self.wal_keys@.drop_last() =~= Seq::<KeyM>::empty());
                assert(self.wal_keys@.last() == m);
                assert(wal_build(Seq::<KeyM>::empty()) == (WalImage {
                    file: Seq::empty(),
                    last: RecordType::Empty,
                    rest: BLOCK_SIZE as int,
                }));
                assert(wal_build(self.wal_keys@).file =~= Seq::<u8>::empty() + spec_add_process(
                    RecordType::Empty,
                    BLOCK_SIZE as int,
                    spec_encode_key(m),
                ).out);
                assert(self.wal_writer.file_bytes@ == wal_build(self.wal_keys@).file);
                assert(replay_into(self.recovered_base@, Seq::<KeyM>::empty())
                    == self.recovered_base@);
                assert(replay_into(self.recovered_base@, self.wal_keys@) == replay_into(
                    self.recovered_base@,
                    Seq::<KeyM>::empty(),
                ).insert(m.sort_key(), m));
                assert(entry_views(self.mem_tables.mut_entries()) =~= replay_into(
                    self.recovered_base@,
                    self.wal_keys@,
                ));
            } else {
                self.wal_keys@ = s0.wal_keys@.push(m);
                assert(self.wal_keys@.drop_last() =~= s0.wal_keys@);
                assert(self.wal_keys@.last() == m);
                assert(self.wal_writer.file_bytes@ == wal_build(self.wal_keys@).file);
                assert(replay_into(self.recovered_base@, self.wal_keys@) == replay_into(
                    self.recovered_base@,
                    s0.wal_keys@,
                ).insert(m.sort_key(), m));
                assert(entry_views(self.mem_tables.mut_entries()) =~= replay_into(
                    self.recovered_base@,
                    s0.wal_keys@,
                ).insert(m.sort_key(), m));
            }
        }
        proof {
            assert(self.mem_tables.mut_entries().dom() =~= (if s0.wal_writer.file_bytes@.len()
                >= LOG_FILE_MAX_SIZE {
                Set::<Seq<char>>::empty()
            } else {
                s0.mem_tables.mut_entries().dom()
            }).insert(m.sort_key()));
        }
        Ok(())
    }

    /// The suffix of the current log-file image from `from` on: what
    /// the last append added.
    fn appended_wal_bytes(&self, from: usize) -> (r: Vec<u8>)
        requires
            from <= self.wal_writer.file_bytes@.len(),
        ensures
            r@ == self.wal_writer.file_bytes@.skip(from as int),
    {
        vstd::slice::slice_to_vec(
            vstd::slice::slice_subrange(
                self.wal_writer.file_bytes.as_slice(),
                from,
                self.wal_writer.file_bytes.len(),
            ),
        )
    }

    /// Hands the accumulated disk actions to the caller and clears the
    /// list. The caller must apply them in order, flushing each write,
    /// before acknowledging the operations that produced them.
    pub fn take_pending(&mut self) -> (r: Vec<DiskOp>)
        ensures
            r@ == old(self).pending@,
            final(self).pending@ == Seq::<DiskOp>::empty(),
            final(self).wal_writer == old(self).wal_writer,
            final(self).mem_tables == old(self).mem_tables,
            final(self).level_0_files == old(self).level_0_files,
            final(self).sequence == old(self).sequence,
            final(self).issued == old(self).issued,
            final(self).wal_keys == old(self).wal_keys,
            final(self).recovered_base == old(self).recovered_base,
            final(self).wal_reader == old(self).wal_reader,
    {
        let mut out: Vec<DiskOp> = Vec::new();
        core::mem::swap(&mut out, &mut self.pending);
        out
    }
}

impl KvsEngine for LsmLogEngine {
    /// The engine invariant.
    open spec fn inv(&self) -> bool {
        self.wf()
    }

    /// `set` behaves as [`set_contract`] with the `Put` kind, and a
    /// failure leaves the engine untouched.
    open spec fn set_ens(
        &self,
        post: &Self,
        r: Result<(), WiscError>,
        key: Seq<char>,
        value: Seq<char>,
    ) -> bool {
        &&& set_contract(*self, *post, r, key, value, 1)
        &&& (r is Err ==> post == self)
    }

    /// `get` returns the value of a record for the key that no other
    /// record for it outranks — or nothing, when there is no record
    /// for the key or an unbeaten record is a tombstone.
    open spec fn get_ens(&self, r: Result<Option<String>, WiscError>, key: Seq<char>) -> bool {
        &&& r is Ok
        &&& got(
            *self,
            key,
            match r.unwrap() {
                Some(v) => Some(v@),
                Option::None => Option::None,
            },
        )
    }

    /// `scan` is reserved and always refuses.
    open spec fn scan_ens(&self, r: Result<Option<Vec<String>>, WiscError>) -> bool {
        r matches Err(WiscError::NotImplemented)
    }

    /// `remove` behaves as [`set_contract`] with the tombstone kind
    /// and an empty value, and a failure leaves the engine untouched.
    open spec fn remove_ens(&self, post: &Self, r: Result<(), WiscError>, key: Seq<char>) -> bool {
        &&& set_contract(*self, *post, r, key, Seq::empty(), 0)
        &&& (r is Err ==> post == self)
    }

    fn set(&mut self, key: &str, value: &str) -> (r: Result<(), WiscError>) {
        self.put_internal(key, value, DataType::Put)
    }

    fn get(&self, key: &str) -> (r: Result<Option<String>, WiscError>) {
        let mut have_best: bool = false;
        let mut best_seq: i64 = 0;
        let mut best_dt: u8 = 0;
        let mut best_val: String = String::new();
        let ghost mut best_m: KeyM = KeyM {
            internal_key_size: 0,
            key: Seq::empty(),
            sequence: 0,
            data_type: 0,
            value_size: 0,
            value: Seq::empty(),
        };

        let mut_vec = self.mem_tables.mut_table().unwrap().entries_vec();
        let mut i: usize = 0;
        while i < mut_vec.len()
            invariant
                self.wf(),
                i <= mut_vec@.len(),
                forall|j: int|
                    0 <= j < mut_vec@.len() ==> self.mem_tables.mut_entries().contains_pair(
                        (#[trigger] mut_vec@[j]).0@,
                        mut_vec@[j].1,
                    ),
                forall|k: Seq<char>|
                    self.mem_tables.mut_entries().dom().contains(k) ==> exists|j: int|
                        0 <= j < mut_vec@.len() && (#[trigger] mut_vec@[j]).0@ == k,
                have_best ==> self.is_candidate(best_m) && best_m.key == key@ && best_m.sequence
                    == best_seq && best_m.data_type == best_dt && best_m.value == best_val@,
                forall|j: int|
                    0 <= j < i && (#[trigger] mut_vec@[j]).1@.key == key@ ==> have_best
                        && mut_vec@[j].1@.sequence <= best_seq,
            decreases mut_vec@.len() - i,
        {
            let e = &mut_vec[i];
            if str_eq(e.1.key.as_str(), key) {
                if !have_best || e.1.sequence > best_seq {
                    have_best = true;
                    best_seq = e.1.sequence;
                    best_dt = e.1.data_type;
                    best_val = e.1.value.clone();
                    proof {
                        best_m = mut_vec@[i as int].1@;
                        assert(self.mem_tables.mut_entries().dom().contains(mut_vec@[i as int].0@));
                        assert(self.mem_tables.mut_entries()[mut_vec@[i as int].0@]@ == best_m);
                    }
                }
            }
            i = i + 1;
        }

        proof {
            assert forall|m2: KeyM| #[trigger] in_mut(*self, m2) && m2.key == key@ implies
                have_best && m2.sequence <= best_seq by {
                let sk = choose|sk: Seq<char>|
                    #[trigger] self.mem_tables.mut_entries().dom().contains(sk)
                        && self.mem_tables.mut_entries()[sk]@ == m2;
                let j = choose|j: int| 0 <= j < mut_vec@.len() && (#[trigger] mut_vec@[j]).0@ == sk;
                assert(self.mem_tables.mut_entries().contains_pair(mut_vec@[j].0@, mut_vec@[j].1));
                assert(mut_vec@[j].1@ == m2);
            }
        }
        let imu_vec = self.mem_tables.imu_table().unwrap().entries_vec();
        let mut i2: usize = 0;
        while i2 < imu_vec.len()
            invariant
                self.wf(),
                i2 <= imu_vec@.len(),
                forall|j: int|
                    0 <= j < imu_vec@.len() ==> self.mem_tables.imu_entries().contains_pair(
                        (#[trigger] imu_vec@[j]).0@,
                        imu_vec@[j].1,
                    ),
                forall|k: Seq<char>|
                    self.mem_tables.imu_entries().dom().contains(k) ==> exists|j: int|
                        0 <= j < imu_vec@.len() && (#[trigger] imu_vec@[j]).0@ == k,
                have_best ==> self.is_candidate(best_m) && best_m.key == key@ && best_m.sequence
                    == best_seq && best_m.data_type == best_dt && best_m.value == best_val@,
                forall|m2: KeyM|
                    #[trigger] in_mut(*self, m2) && m2.key == key@ ==> have_best && m2.sequence
                        <= best_seq,
                forall|j: int|
                    0 <= j < i2 && (#[trigger] imu_vec@[j]).1@.key == key@ ==> have_best
                        && imu_vec@[j].1@.sequence <= best_seq,
            decreases imu_vec@.len() - i2,
        {
            let e = &imu_vec[i2];
            if str_eq(e.1.key.as_str(), key) {
                if !have_best || e.1.sequence > best_seq {
                    have_best = true;
                    best_seq = e.1.sequence;
                    best_dt = e.1.data_type;
                    best_val = e.1.value.clone();
                    proof {
                        best_m = imu_vec@[i2 as int].1@;
                        assert(self.mem_tables.imu_entries().dom().contains(
                            imu_vec@[i2 as int].0@,
                        ));
                    }
                }
            }
            i2 = i2 + 1;
        }

        proof {
            assert forall|m2: KeyM| #[trigger] in_imu(*self, m2) && m2.key == key@ implies
                have_best && m2.sequence <= best_seq by {
                let sk = choose|sk: Seq<char>|
                    #[trigger] self.mem_tables.imu_entries().dom().contains(sk)
                        && self.mem_tables.imu_entries()[sk]@ == m2;
                let j = choose|j: int| 0 <= j < imu_vec@.len() && (#[trigger] imu_vec@[j]).0@ == sk;
                assert(self.mem_tables.imu_entries().contains_pair(imu_vec@[j].0@, imu_vec@[j].1));
                assert(imu_vec@[j].1@ == m2);
            }
        }
        let mut f: usize = self.level_0_files.len();
        while f > 0
            invariant
                self.wf(),
                f <= self.level_0_files@.len(),
                have_best ==> self.is_candidate(best_m) && best_m.key == key@ && best_m.sequence
                    == best_seq && best_m.data_type == best_dt && best_m.value == best_val@,
                forall|m2: KeyM|
                    #[trigger] in_mut(*self, m2) && m2.key == key@ ==> have_best && m2.sequence
                        <= best_seq,
                forall|m2: KeyM|
                    #[trigger] in_imu(*self, m2) && m2.key == key@ ==> have_best && m2.sequence
                        <= best_seq,
                forall|g: int, m2: KeyM|
                    f <= g < self.level_0_files@.len() && #[trigger] spec_l0_parse(
                        self.level_0_files@[g].1@,
                    ).contains(m2) && m2.key == key@ ==> have_best && m2.sequence <= best_seq,
            decreases f,
        {
            f = f - 1;
            let lv = read_level0(&self.level_0_files[f].1);
            let mut j: usize = 0;
            while j < lv.len()
                invariant
                    self.wf(),
                    f < self.level_0_files@.len(),
                    j <= lv@.len(),
                    key_views(lv@) == spec_l0_parse(self.level_0_files@[f as int].1@),
                    have_best ==> self.is_candidate(best_m) && best_m.key == key@
                        && best_m.sequence == best_seq && best_m.data_type == best_dt
                        && best_m.value == best_val@,
                    forall|m2: KeyM|
                        #[trigger] in_mut(*self, m2) && m2.key == key@ ==> have_best
                            && m2.sequence <= best_seq,
                    forall|m2: KeyM|
                        #[trigger] in_imu(*self, m2) && m2.key == key@ ==> have_best
                            && m2.sequence <= best_seq,
                    forall|g: int, m2: KeyM|
                        f + 1 <= g < self.level_0_files@.len() && #[trigger] spec_l0_parse(
                            self.level_0_files@[g].1@,
                        ).contains(m2) && m2.key == key@ ==> have_best && m2.sequence <= best_seq,
                    forall|idx: int|
                        0 <= idx < j && (#[trigger] lv@[idx])@.key == key@ ==> have_best
                            && lv@[idx]@.sequence <= best_seq,
                decreases lv@.len() - j,
            {
                let e = &lv[j];
                if str_eq(e.key.as_str(), key) {
                    if !have_best || e.sequence > best_seq {
                        have_best = true;
                        best_seq = e.sequence;
                        best_dt = e.data_type;
                        best_val = e.value.clone();
                        proof {
                            best_m = lv@[j as int]@;
                            assert(key_views(lv@)[j as int] == best_m);
                            assert(spec_l0_parse(self.level_0_files@[f as int].1@).contains(
                                best_m,
                            ));
                        }
                    }
                }
                j = j + 1;
            }
            proof {
                assert forall|m2: KeyM|
                    #[trigger] spec_l0_parse(self.level_0_files@[f as int].1@).contains(m2)
                        && m2.key == key@ implies have_best && m2.sequence <= best_seq by {
                    let parsed = spec_l0_parse(self.level_0_files@[f as int].1@);
                    let idx = choose|idx: int| 0 <= idx < parsed.len() && parsed[idx] == m2;
                    assert(key_views(lv@)[idx] == m2);
                    assert(lv@[idx]@ == m2);
                }
            }
        }

        proof {
            assert forall|m2: KeyM|
                #[trigger] self.is_candidate(m2) && m2.key == key@ implies have_best
                    && m2.sequence <= best_seq by {
                if exists|sk: Seq<char>|
                    #[trigger] self.mem_tables.mut_entries().dom().contains(sk)
                        && self.mem_tables.mut_entries()[sk]@ == m2 {
                    assert(in_mut(*self, m2));
                } else if exists|sk: Seq<char>|
                    #[trigger] self.mem_tables.imu_entries().dom().contains(sk)
                        && self.mem_tables.imu_entries()[sk]@ == m2 {
                    assert(in_imu(*self, m2));
                } else {
                    let g = choose|g: int|
                        0 <= g < self.level_0_files@.len() && spec_l0_parse(
                            (#[trigger] self.level_0_files@[g]).1@,
                        ).contains(m2);
                    assert(spec_l0_parse(self.level_0_files@[g].1@).contains(m2));
                }
            }
        }
        if !have_best {
            return Ok(Option::None);
        }
        if best_dt == 1 {
            let v = best_val.clone();
            proof {
                assert(self.wins(best_m, key@));
            }
            Ok(Some(v))
        } else {
            proof {
                assert(self.wins(best_m, key@));
            }
            Ok(Option::None)
        }
    }

    fn scan(&self, range: Scans) -> (r: Result<Option<Vec<String>>, WiscError>) {
        Err(WiscError::NotImplemented)
    }

    fn remove(&mut self, key: &str) -> (r: Result<(), WiscError>) {
        proof {
            reveal_strlit("");
            assert(""@ =~= Seq::<char>::empty());
        }
        self.put_internal(key, "", DataType::Delete)
    }
}

/// What a lookup of `k` may observe: a value `Some(v)` only of a
/// record for `k` that no other record for `k` outranks, and nothing
/// only when there is no record for `k` at all or some unbeaten record
/// for `k` is a tombstone.
pub open spec fn got(e: LsmLogEngine, k: Seq<char>, o: Option<Seq<char>>) -> bool {
    match o {
        Some(v) => exists|m: KeyM| #[trigger] e.wins(m, k) && m.data_type == 1 && m.value == v,
        Option::None => (forall|m: KeyM| !(#[trigger] e.is_candidate(m) && m.key == k)) || (
        exists|m: KeyM| #[trigger] e.wins(m, k) && m.data_type != 1),
    }
}

/// `m` is the content of an entry of the mutable table.
pub open spec fn in_mut(e: LsmLogEngine, m: KeyM) -> bool {
    exists|sk: Seq<char>|
        #[trigger] e.mem_tables.mut_entries().dom().contains(sk) && e.mem_tables.mut_entries()[sk]@
            == m
}

/// `m` is the content of an entry of the immutable table.
pub open spec fn in_imu(e: LsmLogEngine, m: KeyM) -> bool {
    exists|sk: Seq<char>|
        #[trigger] e.mem_tables.imu_entries().dom().contains(sk) && e.mem_tables.imu_entries()[sk]@
            == m
}


/// The engine's current log file always reads back to exactly the
/// keys appended to it since the segment started, in order: the
/// fragmentation, padding and CRC framing of the write path and the
/// block walk, reassembly and checking of the read path meet in the
/// middle.
pub proof fn lemma_engine_log_reads_back(e: LsmLogEngine)
    requires
        e.wf(),
    ensures
        spec_read_log(e.wal_writer.file_bytes@) == e.wal_keys@,
{
    lemma_wal_recovery_exact(e.wal_keys@);
}

/// The restart law for a log segment that began on a fresh store:
/// kill the process, reopen on the bytes of its current log file, and
/// recovery rebuilds exactly the mutable memtable the dead process
/// had. Every acknowledged write since the segment began — however it
/// was fragmented across blocks — is back, and nothing else.
pub proof fn lemma_restart_rebuilds_the_memtable(e: LsmLogEngine)
    requires
        e.wf(),
        e.recovered_base@ == Map::<Seq<char>, KeyM>::empty(),
    ensures
        replay_map(spec_read_log(e.wal_writer.file_bytes@)) == entry_views(
            e.mem_tables.mut_entries(),
        ),
{
    lemma_wal_recovery_exact(e.wal_keys@);
    lemma_replay_into_empty(e.wal_keys@);
}

/// After a process dies and a new one opens the store, recovery
/// rebuilds from the surviving log exactly the map of the records the
/// dead process appended to it: replaying what the reader recovers is
/// replaying what was written. Together with `open`'s contract — the
/// initial mutable memtable holds `replay_map` of what the log reads
/// back — a write that reached the log is never lost by a restart.
pub proof fn lemma_restart_recovers_every_append(keys: Seq<KeyM>)
    requires
        forall|i: int| 0 <= i < keys.len() ==> (#[trigger] keys[i]).wf(),
        forall|i: int|
            0 <= i < keys.len() ==> spec_encode_key(#[trigger] keys[i]).len() <= u64::MAX,
    ensures
        replay_map(spec_read_log(wal_build(keys).file)) == replay_map(keys),
{
    lemma_wal_recovery_exact(keys);
}

/// A record that no later record shadows (none with the same sort key
/// comes after it) is exactly what the replayed map holds at its sort
/// key: an unshadowed write survives replay unchanged.
pub proof fn lemma_replay_keeps_the_latest(keys: Seq<KeyM>, i: int)
    requires
        0 <= i < keys.len(),
        forall|j: int| i < j < keys.len() ==> (#[trigger] keys[j]).sort_key() != keys[i].sort_key(),
    ensures
        replay_map(keys).dom().contains(keys[i].sort_key()),
        replay_map(keys)[keys[i].sort_key()] == keys[i],
    decreases keys.len(),
{
    if i == keys.len() - 1 {
    } else {
        lemma_replay_keeps_the_latest(keys.drop_last(), i);
        assert(keys.drop_last()[i] == keys[i]);
        assert(keys.last() == keys[keys.len() - 1]);
    }
}

/// Two engines whose in-memory tables hold records with the same
/// contents and whose level-0 images are byte-identical offer the read
/// path exactly the same candidates.
pub proof fn lemma_same_views_same_candidates(e1: LsmLogEngine, e2: LsmLogEngine)
    requires
        entry_views(e1.mem_tables.mut_entries()) == entry_views(e2.mem_tables.mut_entries()),
        entry_views(e1.mem_tables.imu_entries()) == entry_views(e2.mem_tables.imu_entries()),
        e1.level_0_files@.len() == e2.level_0_files@.len(),
        forall|i: int|
            0 <= i < e1.level_0_files@.len() ==> (#[trigger] e1.level_0_files@[i]).1@
                == e2.level_0_files@[i].1@,
    ensures
        forall|m: KeyM| e1.is_candidate(m) <==> e2.is_candidate(m),
{
    assert forall|m: KeyM| e1.is_candidate(m) implies e2.is_candidate(m) by {
        lemma_candidate_transfers(e1, e2, m);
    }
    assert forall|m: KeyM| e2.is_candidate(m) implies e1.is_candidate(m) by {
        lemma_candidate_transfers(e2, e1, m);
    }
}

/// One direction of the candidate transfer between view-equal engines.
proof fn lemma_candidate_transfers(e1: LsmLogEngine, e2: LsmLogEngine, m: KeyM)
    requires
        entry_views(e1.mem_tables.mut_entries()) == entry_views(e2.mem_tables.mut_entries()),
        entry_views(e1.mem_tables.imu_entries()) == entry_views(e2.mem_tables.imu_entries()),
        e1.level_0_files@.len() == e2.level_0_files@.len(),
        forall|i: int|
            0 <= i < e1.level_0_files@.len() ==> (#[trigger] e1.level_0_files@[i]).1@
                == e2.level_0_files@[i].1@,
        e1.is_candidate(m),
    ensures
        e2.is_candidate(m),
{
    if exists|sk: Seq<char>|
        #[trigger] e1.mem_tables.mut_entries().dom().contains(sk)
            && e1.mem_tables.mut_entries()[sk]@ == m {
        let sk = choose|sk: Seq<char>|
            #[trigger] e1.mem_tables.mut_entries().dom().contains(sk)
                && e1.mem_tables.mut_entries()[sk]@ == m;
        assert(entry_views(e1.mem_tables.mut_entries()).dom().contains(sk));
        assert(entry_views(e2.mem_tables.mut_entries()).dom().contains(sk));
        assert(e2.mem_tables.mut_entries().dom().contains(sk));
        assert(entry_views(e2.mem_tables.mut_entries())[sk] == entry_views(
            e1.mem_tables.mut_entries(),
        )[sk]);
        assert(e2.mem_tables.mut_entries()[sk]@ == m);
    } else if exists|sk: Seq<char>|
        #[trigger] e1.mem_tables.imu_entries().dom().contains(sk)
            && e1.mem_tables.imu_entries()[sk]@ == m {
        let sk = choose|sk: Seq<char>|
            #[trigger] e1.mem_tables.imu_entries().dom().contains(sk)
                && e1.mem_tables.imu_entries()[sk]@ == m;
        assert(entry_views(e1.mem_tables.imu_entries()).dom().contains(sk));
        assert(entry_views(e2.mem_tables.imu_entries()).dom().contains(sk));
        assert(e2.mem_tables.imu_entries().dom().contains(sk));
        assert(entry_views(e2.mem_tables.imu_entries())[sk] == entry_views(
            e1.mem_tables.imu_entries(),
        )[sk]);
        assert(e2.mem_tables.imu_entries()[sk]@ == m);
    } else {
        let i = choose|i: int|
            0 <= i < e1.level_0_files@.len() && spec_l0_parse(
                (#[trigger] e1.level_0_files@[i]).1@,
            ).contains(m);
        assert(e1.level_0_files@[i].1@ == e2.level_0_files@[i].1@);
        assert(spec_l0_parse(e2.level_0_files@[i].1@).contains(m));
    }
}

/// The restart law over the whole read path: kill a process whose
/// current log segment began on a fresh store, reopen on the bytes it
/// left behind (open's contract gives the hypotheses: the rebuilt
/// mutable table replays the surviving log, the immutable table is
/// empty, the level-0 images pass through unchanged), and every lookup
/// observes exactly what it could before the crash — each key's
/// winning record, or its absence, is the same.
pub proof fn lemma_restart_preserves_reads(e: LsmLogEngine, e2: LsmLogEngine)
    requires
        e.wf(),
        e.recovered_base@ == Map::<Seq<char>, KeyM>::empty(),
        entry_views(e2.mem_tables.mut_entries()) == replay_map(
            spec_read_log(e.wal_writer.file_bytes@),
        ),
        e2.mem_tables.imu_entries() == no_entries(),
        e2.level_0_files@.len() == e.level_0_files@.len(),
        forall|i: int|
            0 <= i < e.level_0_files@.len() ==> (#[trigger] e.level_0_files@[i]).1@
                == e2.level_0_files@[i].1@,
    ensures
        forall|m: KeyM, k: Seq<char>| e.wins(m, k) <==> e2.wins(m, k),
        forall|k: Seq<char>, o: Option<Seq<char>>| got(e, k, o) <==> got(e2, k, o),
{
    lemma_restart_rebuilds_the_memtable(e);
    assert(entry_views(e2.mem_tables.mut_entries()) == entry_views(e.mem_tables.mut_entries()));
    assert(e.mem_tables.imu_entries() == no_entries());
    lemma_same_views_same_candidates(e, e2);
    assert forall|m: KeyM, k: Seq<char>| e.wins(m, k) <==> e2.wins(m, k) by {
        if e.wins(m, k) {
            assert forall|m2: KeyM| e2.is_candidate(m2) && m2.key == k implies m2.sequence
                <= m.sequence by {
                assert(e.is_candidate(m2));
            }
            assert(e2.wins(m, k));
        }
        if e2.wins(m, k) {
            assert forall|m2: KeyM| e.is_candidate(m2) && m2.key == k implies m2.sequence
                <= m.sequence by {
                assert(e2.is_candidate(m2));
            }
            assert(e.wins(m, k));
        }
    }
    assert forall|k: Seq<char>, o: Option<Seq<char>>| got(e, k, o) <==> got(e2, k, o) by {
        match o {
            Some(_) => {},
            Option::None => {
                if got(e, k, o) {
                    if forall|m: KeyM| !(#[trigger] e.is_candidate(m) && m.key == k) {
                        assert(forall|m: KeyM| !(#[trigger] e2.is_candidate(m) && m.key == k));
                    }
                }
                if got(e2, k, o) {
                    if forall|m: KeyM| !(#[trigger] e2.is_candidate(m) && m.key == k) {
                        assert(forall|m: KeyM| !(#[trigger] e.is_candidate(m) && m.key == k));
                    }
                }
            },
        }
    }
}

} // verus!
