//! The tiered on-disk layout: per-level directories with file size and
//! count bounds, the level-0 writer policy, and the level-0 file codec
//! (the WAL record framing, without block alignment).

use vstd::bytes::*;
use vstd::prelude::*;

use crate::common::fn_util::{checksum_verify, crc32_of, gen_sequence, SequenceGen};
use crate::common::fn_util::{spec_dec_u64, u64_to_dec_string};
use crate::common::WiscError;
use crate::engines::lsm_log_engine::wal_log::{
    decode_header, key_views, lemma_header_roundtrip, lemma_key_roundtrip, spec_encode_key,
    spec_frame, spec_parse_header, spec_parse_key, Key, KeyM, RecordHeader, RecordType,
    RECORD_HEADER_SIZE,
};
use crate::engines::lsm_log_engine::wal_log::{encode_header, spec_encode_header};

verus! {

/// A level-0 file is sealed once it exceeds this size (1 MiB).
pub const LEVEL_0_FILE_MAX_SIZE: u64 = 1024 * 1024;

/// Level 0 holds at most this many files.
pub const LEVEL_0_FILE_MAX_NUM: usize = 4;

/// A file of a level above 0 is bounded by this size (2 MiB).
pub const LEVEL_FILE_MAX_SIZE: usize = 1024 * 1024 * 2;

/// The file-count bound of level 1.
pub const LEVEL_FILE_BASE_MAX_NUM: usize = 4;

/// Each further level may hold ten times the files of the one before.
pub const LEVEL_FILE_BASE_GROW_FACTOR: usize = 10;

/// One level's directory: the fixed name prefix and the level number.
pub struct LevelDir(pub String, pub u8);

impl LevelDir {
    /// The directory for level `level_num`.
    pub fn new(level_num: u8) -> (r: Self)
        ensures
            r.0@ == "level_"@,
            r.1 == level_num,
    {
        LevelDir("level_".to_owned(), level_num)
    }

    /// The directory's path under `data_dir`: `data_dir/level_N`.
    pub fn to_path(&self, data_dir: &str) -> (r: String)
        ensures
            r@ == data_dir@ + "/"@ + self.0@ + spec_dec_u64(self.1 as nat),
    {
        let mut r = data_dir.to_owned();
        proof {
            reveal_strlit("/");
        }
        r.append("/");
        r.append(self.0.as_str());
        let digits = u64_to_dec_string(self.1 as u64);
        r.append(digits.as_str());
        proof {
            assert(r@ =~= data_dir@ + "/"@ + self.0@ + spec_dec_u64(self.1 as nat));
        }
        r
    }

    /// Picks the level-0 file the next flush writes into, from the
    /// files currently in the directory, each given as its name number
    /// and its length.
    ///
    /// - No file yet: a new file named by the next sequence number.
    /// - The last file is still within 1 MiB: append to it.
    /// - Otherwise, if fewer than 4 files exist: a new file.
    /// - Otherwise level 0 is full; until major compaction exists the
    ///   caller is told to wait.
    ///
    /// Returns the chosen file's name number and whether it is new.
    pub fn init_level_0_writer(&self, files: &Vec<(i64, u64)>, g: &mut SequenceGen) -> (r: Result<
        (i64, bool),
        WiscError,
    >)
        requires
            old(g).val < i64::MAX,
        ensures
            ({
                let n = files@.len();
                let fresh = Ok::<(i64, bool), WiscError>((old(g).val, true));
                let append = if n > 0 {
                    Ok::<(i64, bool), WiscError>((files@.last().0, false))
                } else {
                    fresh
                };
                &&& (n == 0 ==> {
                    &&& r == fresh
                    &&& final(g).val == old(g).val + 1
                })
                &&& (n > 0 && files@.last().1 <= LEVEL_0_FILE_MAX_SIZE ==> {
                    &&& r == append
                    &&& final(g).val == old(g).val
                })
                &&& (n > 0 && files@.last().1 > LEVEL_0_FILE_MAX_SIZE && n < LEVEL_0_FILE_MAX_NUM
                    ==> {
                    &&& r == fresh
                    &&& final(g).val == old(g).val + 1
                })
                &&& (n >= LEVEL_0_FILE_MAX_NUM && files@.last().1 > LEVEL_0_FILE_MAX_SIZE ==> {
                    &&& r matches Err(WiscError::NotImplemented)
                    &&& final(g).val == old(g).val
                })
            }),
    {
        let file_count = files.len();
        if file_count == 0 {
            let name = gen_sequence(g);
            return Ok((name, true));
        }
        let last = files[file_count - 1];
        if last.1 <= LEVEL_0_FILE_MAX_SIZE {
            return Ok((last.0, false));
        }
        if file_count < LEVEL_0_FILE_MAX_NUM {
            let name = gen_sequence(g);
            return Ok((name, true));
        }
        // level 0 is at capacity and the last file is sealed; major
        // compaction, which would make room, is a deferred obligation
        Err(WiscError::NotImplemented)
    }
}

/// The level-0 image of a run of keys: each key encoded and framed as
/// one `Full` record, first key first.
pub open spec fn spec_l0_encode(keys: Seq<KeyM>) -> Seq<u8>
    decreases keys.len(),
{
    if keys.len() == 0 {
        Seq::empty()
    } else {
        spec_frame(spec_encode_key(keys[0]), RecordType::Full) + spec_l0_encode(keys.drop_first())
    }
}

/// The keys read back from a level-0 image: framed records are walked
/// front to back; a record whose CRC matches and whose payload decodes
/// is kept, any other is dropped; walking stops at a header that is not
/// `Full` or that overruns the bytes.
pub open spec fn spec_l0_parse(bytes: Seq<u8>) -> Seq<KeyM>
    decreases bytes.len(),
{
    if bytes.len() < RECORD_HEADER_SIZE {
        Seq::empty()
    } else {
        let h = spec_parse_header(bytes, 0);
        if h._type != RecordType::Full.code_spec() {
            Seq::empty()
        } else if RECORD_HEADER_SIZE + h.value_len > bytes.len() {
            Seq::empty()
        } else {
            let payload = bytes.subrange(
                RECORD_HEADER_SIZE as int,
                RECORD_HEADER_SIZE + h.value_len,
            );
            let rest = bytes.skip(RECORD_HEADER_SIZE + h.value_len as int);
            if crc32_of(payload) == h.checksum {
                match spec_parse_key(payload) {
                    Option::Some(m) => seq![m] + spec_l0_parse(rest),
                    Option::None => spec_l0_parse(rest),
                }
            } else {
                spec_l0_parse(rest)
            }
        }
    }
}

/// Encodes a drained memtable snapshot, already in ascending sort-key
/// order, into a level-0 file image.
pub fn level0_encode(entries: &Vec<(String, Key)>) -> (r: Vec<u8>)
    requires
        forall|i: int| 0 <= i < entries@.len() ==> (#[trigger] entries@[i]).1.wf(),
    ensures
        r@ == spec_l0_encode(key_views(seconds(entries@))),
{
    let mut out: Vec<u8> = Vec::new();
    let mut i: usize = 0;
    proof {
        assert(key_views(seconds(entries@)).skip(0) =~= key_views(seconds(entries@)));
    }
    while i < entries.len()
        invariant
            i <= entries@.len(),
            forall|k: int| 0 <= k < entries@.len() ==> (#[trigger] entries@[k]).1.wf(),
            out@ + spec_l0_encode(key_views(seconds(entries@)).skip(i as int)) =~= spec_l0_encode(
                key_views(seconds(entries@)),
            ),
        decreases entries@.len() - i,
    {
        let payload = entries[i].1.encode();
        let crc = crate::common::fn_util::checksum(payload.as_slice());
        let header = RecordHeader::new(crc, 1, payload.len() as u64);
        let mut hb = encode_header(&header);
        out.append(&mut hb);
        let mut pb = payload;
        out.append(&mut pb);
        i = i + 1;
        proof {
            let views = key_views(seconds(entries@));
            assert(views.skip(i - 1).drop_first() =~= views.skip(i as int));
            assert(views.skip(i - 1)[0] == entries@[i - 1].1@);
            assert(out@ + spec_l0_encode(views.skip(i as int)) =~= spec_l0_encode(views));
        }
    }
    proof {
        assert(key_views(seconds(entries@)).skip(entries@.len() as int) =~= Seq::<KeyM>::empty());
        assert(out@ =~= spec_l0_encode(key_views(seconds(entries@))));
    }
    out
}

/// The keys of a run of (sort key, key) pairs.
pub open spec fn seconds(entries: Seq<(String, Key)>) -> Seq<Key> {
    entries.map_values(|p: (String, Key)| p.1)
}

/// Reads every record back from a level-0 file image.
pub fn read_level0(bytes: &Vec<u8>) -> (r: Vec<Key>)
    ensures
        key_views(r@) == spec_l0_parse(bytes@),
        forall|i: int| 0 <= i < r@.len() ==> (#[trigger] r@[i]).wf(),
{
    let n: usize = bytes.len();
    let mut acc: Vec<Key> = Vec::new();
    let mut at: usize = 0;
    proof {
        assert(bytes@.skip(0) =~= bytes@);
        assert(key_views(acc@) =~= Seq::<KeyM>::empty());
        assert(key_views(acc@) + spec_l0_parse(bytes@.skip(0)) =~= spec_l0_parse(bytes@));
    }
    while n - at >= RECORD_HEADER_SIZE
        invariant
            at <= n,
            n == bytes@.len(),
            key_views(acc@) + spec_l0_parse(bytes@.skip(at as int)) =~= spec_l0_parse(bytes@),
            forall|i: int| 0 <= i < acc@.len() ==> (#[trigger] acc@[i]).wf(),
        decreases n - at,
    {
        let ghost rest = bytes@.skip(at as int);
        let header = decode_header(bytes, at);
        proof {
            assert(rest.subrange(0, 4) =~= bytes@.subrange(at as int, at + 4));
            assert(rest.subrange(5, 13) =~= bytes@.subrange(at + 5, at + 13));
            assert(spec_parse_header(rest, 0) == header);
        }
        if header._type != 1 {
            proof {
                assert(spec_l0_parse(rest) =~= Seq::<KeyM>::empty());
                assert(key_views(acc@) =~= spec_l0_parse(bytes@));
            }
            return acc;
        }
        if header.value_len > (n - at - RECORD_HEADER_SIZE) as u64 {
            proof {
                assert(spec_l0_parse(rest) =~= Seq::<KeyM>::empty());
                assert(key_views(acc@) =~= spec_l0_parse(bytes@));
            }
            return acc;
        }
        let len: usize = header.value_len as usize;
        let payload = vstd::slice::slice_to_vec(
            vstd::slice::slice_subrange(
                bytes.as_slice(),
                at + RECORD_HEADER_SIZE,
                at + RECORD_HEADER_SIZE + len,
            ),
        );
        proof {
            assert(payload@ =~= rest.subrange(
                RECORD_HEADER_SIZE as int,
                RECORD_HEADER_SIZE + header.value_len,
            ));
            assert(rest.skip(RECORD_HEADER_SIZE + header.value_len as int) =~= bytes@.skip(
                at + RECORD_HEADER_SIZE + header.value_len,
            ));
        }
        if checksum_verify(payload.as_slice(), header.checksum) {
            match Key::decode(&payload) {
                Ok(key) => {
                    let ghost acc0 = acc@;
                    acc.push(key);
                    proof {
                        assert(key_views(acc@) =~= key_views(acc0).push(
                            spec_parse_key(payload@).unwrap(),
                        ));
                    }
                },
                Err(_) => {
                    // an undecodable record is dropped; reading goes on
                },
            }
        }
        at = at + RECORD_HEADER_SIZE + len;
        proof {
            assert(key_views(acc@) + spec_l0_parse(bytes@.skip(at as int)) =~= spec_l0_parse(
                bytes@,
            ));
        }
    }
    proof {
        assert(spec_l0_parse(bytes@.skip(at as int)) =~= Seq::<KeyM>::empty());
        assert(key_views(acc@) =~= spec_l0_parse(bytes@));
    }
    acc
}

/// Writing a snapshot to a level-0 image and reading it back yields
/// the same keys, in the same order: nothing is lost, reordered or
/// changed on the way through the file.
pub proof fn lemma_level0_roundtrip(keys: Seq<KeyM>)
    requires
        forall|i: int| 0 <= i < keys.len() ==> (#[trigger] keys[i]).wf(),
        forall|i: int|
            0 <= i < keys.len() ==> spec_encode_key(#[trigger] keys[i]).len() <= u64::MAX,
    ensures
        spec_l0_parse(spec_l0_encode(keys)) == keys,
    decreases keys.len(),
{
    lemma_auto_spec_u32_to_from_le_bytes();
    lemma_auto_spec_u64_to_from_le_bytes();
    if keys.len() == 0 {
        assert(spec_l0_parse(spec_l0_encode(keys)) =~= keys);
    } else {
        let m = keys[0];
        let payload = spec_encode_key(m);
        let frame = spec_frame(payload, RecordType::Full);
        let rest = spec_l0_encode(keys.drop_first());
        let b = frame + rest;
        assert(spec_l0_encode(keys) == b);
        let h = RecordHeader {
            checksum: crc32_of(payload),
            _type: RecordType::Full.code_spec(),
            value_len: payload.len() as u64,
        };
        assert(b.subrange(0, RECORD_HEADER_SIZE as int) =~= spec_encode_header(h)) by {
            assert(frame.subrange(0, RECORD_HEADER_SIZE as int) =~= spec_encode_header(h));
        }
        lemma_header_roundtrip(h, b, 0);
        assert(spec_parse_header(b, 0) == h);
        assert(h.value_len == payload.len());
        assert(b.subrange(RECORD_HEADER_SIZE as int, RECORD_HEADER_SIZE + h.value_len) =~= payload);
        assert(b.skip(RECORD_HEADER_SIZE + h.value_len as int) =~= rest);
        lemma_key_roundtrip(m);
        lemma_level0_roundtrip(keys.drop_first());
        assert(spec_l0_parse(b) =~= seq![m] + spec_l0_parse(rest));
        assert(seq![m] + keys.drop_first() =~= keys);
    }
}

} // verus!
