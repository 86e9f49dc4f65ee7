//! The write-ahead-log record model: the framed record header, the
//! internal key and their byte codecs.
//!
//! A WAL file is a run of 32 KiB blocks. Each block holds framed
//! records: a fixed 13-byte header (`crc32 | type | payload_len`,
//! little-endian) followed by the payload bytes. Payloads that do not
//! fit the space left in a block are fragmented (`First`/`Middle`/
//! `Last`); a payload that fits whole is written as `Full`. An `Empty`
//! header marks the rest of a block as padding.

use vstd::bytes::*;
use vstd::prelude::*;
use vstd::slice::*;
use vstd::string::*;
use vstd::utf8::*;

use crate::common::fn_util::{checksum, crc32_of, gen_sequence, spec_dec_i64, SequenceGen};
use crate::common::fn_util::i64_to_dec_string;
use crate::common::WiscError;

verus! {

/// Block size: 32 KiB.
pub const BLOCK_SIZE: usize = 1024 * 32;

/// checksum (4 bytes), type (1 byte), payload length (8 bytes).
pub const RECORD_HEADER_SIZE: usize = 4 + 1 + 8;

/// When a log file reaches this size (4 MiB) the writer rolls to a new
/// file on the next append.
pub const LOG_FILE_MAX_SIZE: u64 = 1024 * 1024 * 4;

/// The kind of one framed record inside a block.
#[derive(Debug, Clone, Copy, PartialEq, Eq, Structural)]
pub enum RecordType {
    /// A padding sentinel header, or the initial "nothing written yet"
    /// state of the writer.
    Empty,
    /// A record whose whole payload sits in one frame.
    Full,
    /// The first fragment of a payload that crosses a block boundary.
    First,
    /// A middle fragment.
    Middle,
    /// The last fragment.
    Last,
}

impl RecordType {
    /// The byte stored in a record header for this kind.
    pub open spec fn code_spec(self) -> u8 {
        match self {
            RecordType::Empty => 0,
            RecordType::Full => 1,
            RecordType::First => 2,
            RecordType::Middle => 3,
            RecordType::Last => 4,
        }
    }

    /// Returns the header byte for this kind.
    pub fn code(self) -> (r: u8)
        ensures
            r == self.code_spec(),
    {
        match self {
            RecordType::Empty => 0,
            RecordType::Full => 1,
            RecordType::First => 2,
            RecordType::Middle => 3,
            RecordType::Last => 4,
        }
    }
}

/// The engine-level kind of an internal key: a write or a tombstone.
#[derive(Debug, Clone, Copy, PartialEq, Eq, Structural)]
pub enum DataType {
    /// A tombstone; the value is empty.
    Delete,
    /// An ordinary write.
    Put,
}

impl DataType {
    /// The byte stored in an encoded key for this kind.
    pub open spec fn code_spec(self) -> u8 {
        match self {
            DataType::Delete => 0,
            DataType::Put => 1,
        }
    }

    /// Returns the encoded byte for this kind.
    pub fn code(self) -> (r: u8)
        ensures
            r == self.code_spec(),
    {
        match self {
            DataType::Delete => 0,
            DataType::Put => 1,
        }
    }
}

/// The kind of a user command as it arrives over the wire. Distinct
/// from [`DataType`], which is the storage-level kind.
#[derive(Debug, Clone, Copy, PartialEq, Eq, Structural)]
pub enum CommandType {
    Insert,
    Update,
    Delete,
}

/// The fixed 13-byte header in front of every framed record.
#[derive(Debug, Clone, Copy, PartialEq, Eq, Structural)]
pub struct RecordHeader {
    /// CRC-32 over the payload bytes of this frame.
    pub checksum: u32,
    /// A [`RecordType`] code.
    pub _type: u8,
    /// The number of payload bytes following the header.
    pub value_len: u64,
}

impl RecordHeader {
    /// A header with the given fields.
    pub fn new(checksum: u32, _type: u8, value_len: u64) -> (r: Self)
        ensures
            r.checksum == checksum,
            r._type == _type,
            r.value_len == value_len,
    {
        RecordHeader { checksum, _type, value_len }
    }
}

impl Default for RecordHeader {
    /// The padding-sentinel header: all fields zero, which also makes
    /// its 13 encoded bytes all zero.
    fn default() -> (r: Self)
        ensures
            r.checksum == 0,
            r._type == RecordType::Empty.code_spec(),
            r.value_len == 0,
    {
        RecordHeader { checksum: 0, _type: 0, value_len: 0 }
    }
}

/// The 13 bytes that `encode_header` produces: checksum, type byte,
/// payload length, each little-endian.
pub open spec fn spec_encode_header(h: RecordHeader) -> Seq<u8> {
    spec_u32_to_le_bytes(h.checksum) + seq![h._type] + spec_u64_to_le_bytes(h.value_len)
}

/// The header read back from 13 bytes of `b` starting at `at`.
pub open spec fn spec_parse_header(b: Seq<u8>, at: int) -> RecordHeader {
    RecordHeader {
        checksum: spec_u32_from_le_bytes(b.subrange(at, at + 4)),
        _type: b[at + 4],
        value_len: spec_u64_from_le_bytes(b.subrange(at + 5, at + 13)),
    }
}

/// Encodes a header into its 13 bytes.
pub fn encode_header(h: &RecordHeader) -> (r: Vec<u8>)
    ensures
        r@ == spec_encode_header(*h),
        r@.len() == RECORD_HEADER_SIZE,
{
    proof {
        lemma_auto_spec_u32_to_from_le_bytes();
        lemma_auto_spec_u64_to_from_le_bytes();
    }
    let mut r = u32_to_le_bytes(h.checksum);
    r.push(h._type);
    let mut tail = u64_to_le_bytes(h.value_len);
    r.append(&mut tail);
    proof {
        assert(r@ =~= spec_encode_header(*h));
    }
    r
}

/// Reads the header stored at offset `at` of `buf`.
pub fn decode_header(buf: &Vec<u8>, at: usize) -> (h: RecordHeader)
    requires
        at + RECORD_HEADER_SIZE <= buf@.len(),
    ensures
        h == spec_parse_header(buf@, at as int),
{
    let n: usize = buf.len();
    let checksum_bytes = slice_subrange(buf.as_slice(), at, at + 4);
    let checksum = u32_from_le_bytes(checksum_bytes);
    let _type = buf[at + 4];
    let len_bytes = slice_subrange(buf.as_slice(), at + 5, at + 13);
    let value_len = u64_from_le_bytes(len_bytes);
    RecordHeader { checksum, _type, value_len }
}

/// Encoding then parsing a header gives the header back, wherever the
/// 13 bytes sit inside a larger buffer.
pub proof fn lemma_header_roundtrip(h: RecordHeader, b: Seq<u8>, at: int)
    requires
        0 <= at,
        at + RECORD_HEADER_SIZE <= b.len(),
        b.subrange(at, at + RECORD_HEADER_SIZE) == spec_encode_header(h),
    ensures
        spec_parse_header(b, at) == h,
{
    lemma_auto_spec_u32_to_from_le_bytes();
    lemma_auto_spec_u64_to_from_le_bytes();
    let frame = b.subrange(at, at + RECORD_HEADER_SIZE);
    assert(b.subrange(at, at + 4) =~= frame.subrange(0, 4));
    assert(frame.subrange(0, 4) =~= spec_u32_to_le_bytes(h.checksum));
    assert(b[at + 4] == frame[4]);
    assert(b.subrange(at + 5, at + 13) =~= frame.subrange(5, 13));
    assert(frame.subrange(5, 13) =~= spec_u64_to_le_bytes(h.value_len));
}

/// The two's-complement reinterpretation of a signed 64-bit value as
/// unsigned, used when a sequence number is laid down in bytes.
pub open spec fn i64_as_u64(s: i64) -> u64 {
    if s >= 0 {
        s as u64
    } else {
        (s + 0x1_0000_0000_0000_0000) as u64
    }
}

/// The inverse reinterpretation.
pub open spec fn u64_as_i64(u: u64) -> i64 {
    if u <= i64::MAX as u64 {
        u as i64
    } else {
        (u - 0x1_0000_0000_0000_0000) as i64
    }
}

/// The two reinterpretations invert each other.
pub proof fn lemma_i64_u64_roundtrip(s: i64)
    ensures
        u64_as_i64(i64_as_u64(s)) == s,
{
}

/// Reinterprets a signed value as unsigned, two's complement.
pub fn i64_to_u64(x: i64) -> (r: u64)
    ensures
        r == i64_as_u64(x),
{
    if x >= 0 {
        x as u64
    } else {
        let y: u64 = (-(x + 1)) as u64;
        u64::MAX - y
    }
}

/// Reinterprets an unsigned value as signed, two's complement.
pub fn u64_to_i64(u: u64) -> (r: i64)
    ensures
        r == u64_as_i64(u),
{
    if u <= i64::MAX as u64 {
        u as i64
    } else {
        let y: u64 = u64::MAX - u;
        -(y as i64) - 1
    }
}

/// Relies on `String::from_utf8`: `Some` exactly on valid UTF-8 input,
/// holding the string those bytes encode.
#[verifier::external_body]
fn string_from_utf8(bytes: Vec<u8>) -> (r: Option<String>)
    ensures
        r is Some <==> valid_utf8(bytes@),
        r is Some ==> r.unwrap()@ == decode_utf8(bytes@),
{
    String::from_utf8(bytes).ok()
}

/// The mathematical content of an internal key, used in contracts.
#[verifier::ext_equal]
pub ghost struct KeyM {
    /// The length stored in the first 8 encoded bytes: key bytes + 9.
    pub internal_key_size: u64,
    /// The user key.
    pub key: Seq<char>,
    /// The global sequence number assigned at creation.
    pub sequence: i64,
    /// A [`DataType`] code.
    pub data_type: u8,
    /// The length stored for the value bytes.
    pub value_size: u64,
    /// The user value; empty for a tombstone.
    pub value: Seq<char>,
}

impl KeyM {
    /// The stored internal-key size agrees with the key text. The
    /// value-size field is carried as stored; the codec reads the value
    /// bytes from the buffer itself.
    pub open spec fn wf(self) -> bool {
        &&& self.internal_key_size == encode_utf8(self.key).len() + 9
        &&& encode_utf8(self.key).len() + 9 <= u64::MAX
    }

    /// The string the in-memory tables sort by: `"{key}-{sequence}"`.
    pub open spec fn sort_key(self) -> Seq<char> {
        self.key + seq!['-'] + spec_dec_i64(self.sequence as int)
    }
}

/// The durable unit of change: a user key, its value (empty for a
/// tombstone), the kind of change and the sequence number that orders
/// it.
///
/// Layout when encoded (all integers little-endian):
/// `internal_key_size: u64 | key bytes | sequence: i64 | data_type: u8 |
/// value_size: u64 | value bytes`, with
/// `internal_key_size = len(key bytes) + 9`.
#[derive(Debug, Clone)]
pub struct Key {
    /// Length of the key bytes plus 9.
    pub internal_key_size: u64,
    /// The user key.
    pub key: String,
    /// The global sequence number assigned at creation.
    pub sequence: i64,
    /// A [`DataType`] code.
    pub data_type: u8,
    /// Length of the value bytes.
    pub value_size: u64,
    /// The user value; empty for a tombstone.
    pub value: String,
}

impl View for Key {
    type V = KeyM;

    open spec fn view(&self) -> KeyM {
        KeyM {
            internal_key_size: self.internal_key_size,
            key: self.key@,
            sequence: self.sequence,
            data_type: self.data_type,
            value_size: self.value_size,
            value: self.value@,
        }
    }
}

/// The bytes `Key::encode` produces for a key with this content.
pub open spec fn spec_encode_key(m: KeyM) -> Seq<u8> {
    spec_u64_to_le_bytes(m.internal_key_size) + encode_utf8(m.key) + spec_u64_to_le_bytes(
        i64_as_u64(m.sequence),
    ) + seq![m.data_type] + spec_u64_to_le_bytes(m.value_size) + encode_utf8(m.value)
}

/// True when the sizes declared inside `b` fit the bytes supplied:
/// at least the leading length field, an internal key of at least the
/// fixed 9 bytes, and room for the value length field after it.
pub open spec fn spec_key_frame_ok(b: Seq<u8>) -> bool {
    &&& b.len() >= 8
    &&& ({
        let iks = spec_u64_from_le_bytes(b.subrange(0, 8)) as int;
        9 <= iks && iks + 16 <= b.len()
    })
}

/// The content read back from an encoded key, or `None` when the
/// declared sizes do not fit the buffer or a text is not UTF-8. The
/// value takes every byte after the value-length field, as the decoder
/// does.
pub open spec fn spec_parse_key(b: Seq<u8>) -> Option<KeyM> {
    if !spec_key_frame_ok(b) {
        Option::None
    } else {
        let iks = spec_u64_from_le_bytes(b.subrange(0, 8)) as int;
        let key_bytes = b.subrange(8, iks - 1);
        let value_bytes = b.subrange(8 + iks + 8, b.len() as int);
        if valid_utf8(key_bytes) && valid_utf8(value_bytes) {
            Option::Some(
                KeyM {
                    internal_key_size: spec_u64_from_le_bytes(b.subrange(0, 8)),
                    key: decode_utf8(key_bytes),
                    sequence: u64_as_i64(spec_u64_from_le_bytes(b.subrange(iks - 1, iks + 7))),
                    data_type: b[iks + 7],
                    value_size: spec_u64_from_le_bytes(b.subrange(8 + iks, 8 + iks + 8)),
                    value: decode_utf8(value_bytes),
                },
            )
        } else {
            Option::None
        }
    }
}

impl Key {
    /// The stored sizes agree with the texts.
    pub open spec fn wf(self) -> bool {
        self@.wf()
    }

    /// Builds an internal key around the next sequence number.
    pub fn new(key: String, value: String, data_type: DataType, g: &mut SequenceGen) -> (r: Key)
        requires
            old(g).val < i64::MAX,
            encode_utf8(key@).len() + 9 <= u64::MAX,
        ensures
            r.wf(),
            r@.key == key@,
            r@.value == value@,
            r@.value_size == encode_utf8(value@).len(),
            r@.data_type == data_type.code_spec(),
            r@.sequence == old(g).val,
            final(g).val == old(g).val + 1,
    {
        let sequence = gen_sequence(g);
        let key_bytes = key.as_str().as_bytes_vec();
        let value_bytes = value.as_str().as_bytes_vec();
        let key_len: usize = key_bytes.len();
        let value_len: usize = value_bytes.len();
        Key {
            internal_key_size: key_len as u64 + 9,
            key,
            sequence,
            data_type: data_type.code(),
            value_size: value_len as u64,
            value,
        }
    }

    /// The string the in-memory tables sort by: the user key, a dash,
    /// then the sequence number in decimal.
    pub fn get_sort_key(&self) -> (r: String)
        ensures
            r@ == self@.sort_key(),
    {
        let mut r = self.key.clone();
        proof {
            reveal_strlit("-");
        }
        r.append("-");
        let digits = i64_to_dec_string(self.sequence);
        r.append(digits.as_str());
        proof {
            assert(r@ =~= self@.sort_key());
        }
        r
    }

    /// Encodes the key into its byte layout.
    pub fn encode(&self) -> (r: Vec<u8>)
        requires
            self.wf(),
        ensures
            r@ == spec_encode_key(self@),
    {
        let mut buf = u64_to_le_bytes(self.internal_key_size);
        let mut key_bytes = self.key.as_str().as_bytes_vec();
        buf.append(&mut key_bytes);
        let mut seq_bytes = u64_to_le_bytes(i64_to_u64(self.sequence));
        buf.append(&mut seq_bytes);
        buf.push(self.data_type);
        let mut size_bytes = u64_to_le_bytes(self.value_size);
        buf.append(&mut size_bytes);
        let mut value_bytes = self.value.as_str().as_bytes_vec();
        buf.append(&mut value_bytes);
        proof {
            assert(buf@ =~= spec_encode_key(self@));
        }
        buf
    }

    /// Decodes one key from `content`, which must hold exactly one
    /// encoded key. Fails with `Truncated` when a declared size does
    /// not fit the buffer and with `Encoding` when key or value bytes
    /// are not UTF-8.
    pub fn decode(content: &Vec<u8>) -> (r: Result<Key, WiscError>)
        ensures
            r is Ok <==> spec_parse_key(content@) is Some,
            r is Ok ==> r.unwrap()@ == spec_parse_key(content@).unwrap() && r.unwrap().wf(),
            !spec_key_frame_ok(content@) ==> r matches Err(WiscError::Truncated),
            spec_key_frame_ok(content@) && spec_parse_key(content@) is None ==> r matches Err(
                WiscError::Encoding,
            ),
    {
        proof {
            lemma_auto_spec_u64_to_from_le_bytes();
        }
        if content.len() < 8 {
            return Err(WiscError::Truncated);
        }
        let iks_u64 = u64_from_le_bytes(slice_subrange(content.as_slice(), 0, 8));
        let n: usize = content.len();
        if iks_u64 < 9 || iks_u64 > (n as u64) || (n as u64) - iks_u64 < 16 {
            return Err(WiscError::Truncated);
        }
        let iks: usize = iks_u64 as usize;
        let key_bytes = slice_to_vec(slice_subrange(content.as_slice(), 8, iks - 1));
        let seq_bytes = slice_subrange(content.as_slice(), iks - 1, iks + 7);
        let data_type = content[iks + 7];
        let size_bytes = slice_subrange(content.as_slice(), 8 + iks, 8 + iks + 8);
        let value_bytes = slice_to_vec(slice_subrange(content.as_slice(), 8 + iks + 8, n));
        let ghost key_bytes_g = key_bytes@;
        let ghost value_bytes_g = value_bytes@;
        let key = match string_from_utf8(key_bytes) {
            Option::Some(k) => k,
            Option::None => {
                return Err(WiscError::Encoding);
            },
        };
        let value = match string_from_utf8(value_bytes) {
            Option::Some(v) => v,
            Option::None => {
                return Err(WiscError::Encoding);
            },
        };
        let sequence = u64_to_i64(u64_from_le_bytes(seq_bytes));
        let value_size = u64_from_le_bytes(size_bytes);
        let r = Key { internal_key_size: iks_u64, key, sequence, data_type, value_size, value };
        proof {
            vstd::utf8::decode_utf8_encode_utf8(key_bytes_g);
            vstd::utf8::decode_utf8_encode_utf8(value_bytes_g);
            let b = content@;
            assert(spec_u64_from_le_bytes(b.subrange(0, 8)) == iks_u64);
            assert(iks as int == iks_u64 as int);
            assert(key_bytes_g =~= b.subrange(8, iks_u64 as int - 1));
            assert(value_bytes_g =~= b.subrange(8 + iks_u64 as int + 8, b.len() as int));
            assert(encode_utf8(r.key@) == key_bytes_g);
            assert(r@ =~= spec_parse_key(content@).unwrap());
            assert(r.wf());
        }
        Ok(r)
    }
}

/// Parsing an encoded well-formed key gives its content back.
pub proof fn lemma_key_roundtrip(m: KeyM)
    requires
        m.wf(),
    ensures
        spec_parse_key(spec_encode_key(m)) == Option::Some(m),
{
    broadcast use vstd::utf8::encode_utf8_valid_utf8;
    broadcast use vstd::utf8::encode_utf8_decode_utf8;

    lemma_auto_spec_u64_to_from_le_bytes();
    let b = spec_encode_key(m);
    let kb = encode_utf8(m.key);
    let vb = encode_utf8(m.value);
    let iks = m.internal_key_size as int;
    assert(b.subrange(0, 8) =~= spec_u64_to_le_bytes(m.internal_key_size));
    assert(b.len() == 8 + kb.len() + 8 + 1 + 8 + vb.len());
    assert(spec_key_frame_ok(b));
    assert(b.subrange(8, iks - 1) =~= kb);
    assert(b.subrange(iks - 1, iks + 7) =~= spec_u64_to_le_bytes(i64_as_u64(m.sequence)));
    assert(b[iks + 7] == m.data_type);
    assert(b.subrange(8 + iks, 8 + iks + 8) =~= spec_u64_to_le_bytes(m.value_size));
    assert(b.subrange(8 + iks + 8, b.len() as int) =~= vb);
    lemma_i64_u64_roundtrip(m.sequence);
}


/// One framed fragment: its kind and its payload slice.
#[verifier::ext_equal]
pub ghost struct Frag {
    pub t: RecordType,
    pub data: Seq<u8>,
}

/// What one `add_process` run produces: the bytes appended to the file,
/// the writer state afterwards, and the fragments framed on the way.
#[verifier::ext_equal]
pub ghost struct AddResult {
    pub out: Seq<u8>,
    pub last: RecordType,
    pub rest: int,
    pub frags: Seq<Frag>,
}

/// True of the writer states that continue a fragmented record: the
/// next fragment must be `Middle` or `Last`, not `First` or `Full`.
pub open spec fn continues(last: RecordType) -> bool {
    last is First || last is Middle
}

/// A sequence of `n` zero bytes.
pub open spec fn zero_bytes(n: int) -> Seq<u8> {
    Seq::new(n as nat, |i| 0u8)
}

/// The frame for one fragment: a header carrying the payload's CRC-32,
/// the fragment kind and the payload length, then the payload bytes.
pub open spec fn spec_frame(payload: Seq<u8>, t: RecordType) -> Seq<u8> {
    spec_encode_header(
        RecordHeader {
            checksum: crc32_of(payload),
            _type: t.code_spec(),
            value_len: payload.len() as u64,
        },
    ) + payload
}

/// The head of a block too small for a header, or exactly a header: one
/// extra recursion step after padding.
pub open spec fn pad_steps(rest: int) -> int {
    if rest <= RECORD_HEADER_SIZE { 1int } else { 0int }
}

/// How the writer turns one payload into framed fragments, padding and
/// block switches, starting from `last` (the kind of the previous
/// fragment) with `rest` bytes left in the current block.
///
/// - More than a header's worth of room: frame as much as fits. If the
///   whole payload fits it becomes `Full` (or `Last` when continuing a
///   fragmented record); otherwise exactly `rest - 13` payload bytes
///   are framed as `First` (or `Middle`) and the remainder recurses
///   into the next block.
/// - Exactly a header's worth: a zero `Empty` header closes the block.
/// - Less than a header's worth: zero padding closes the block.
pub open spec fn spec_add_process(last: RecordType, rest: int, payload: Seq<u8>) -> AddResult
    decreases payload.len(), pad_steps(rest),
    when 0 < rest <= BLOCK_SIZE
{
    if payload.len() == 0 {
        AddResult { out: Seq::empty(), last, rest, frags: Seq::empty() }
    } else if rest > RECORD_HEADER_SIZE {
        let free = rest - RECORD_HEADER_SIZE;
        if payload.len() > free {
            let t = if continues(last) {
                RecordType::Middle
            } else {
                RecordType::First
            };
            let head = payload.subrange(0, free);
            let tail = payload.subrange(free, payload.len() as int);
            let r2 = spec_add_process(t, BLOCK_SIZE as int, tail);
            AddResult {
                out: spec_frame(head, t) + r2.out,
                last: r2.last,
                rest: r2.rest,
                frags: seq![Frag { t, data: head }] + r2.frags,
            }
        } else {
            let t = if continues(last) {
                RecordType::Last
            } else {
                RecordType::Full
            };
            let used = RECORD_HEADER_SIZE + payload.len() as int;
            let rest2 = if rest - used == 0 {
                BLOCK_SIZE as int
            } else {
                rest - used
            };
            AddResult {
                out: spec_frame(payload, t),
                last: t,
                rest: rest2,
                frags: seq![Frag { t, data: payload }],
            }
        }
    } else if rest == RECORD_HEADER_SIZE {
        let r2 = spec_add_process(last, BLOCK_SIZE as int, payload);
        AddResult {
            out: spec_encode_header(
                RecordHeader { checksum: 0, _type: 0, value_len: 0 },
            ) + r2.out,
            last: r2.last,
            rest: r2.rest,
            frags: r2.frags,
        }
    } else {
        let r2 = spec_add_process(last, BLOCK_SIZE as int, payload);
        AddResult { out: zero_bytes(rest) + r2.out, last: r2.last, rest: r2.rest, frags: r2.frags }
    }
}

/// The write half of the WAL. It frames payloads into the byte image of
/// the current log file; the caller persists `file_bytes` (append-only)
/// after each operation and is told when the writer has rolled to a new
/// file.
#[derive(Debug)]
pub struct LogRecordWrite {
    /// The full content of the current log file.
    pub file_bytes: Vec<u8>,
    /// The sequence number that names the current log file
    /// (`{sequence}.xlog`).
    pub block_writer_file: i64,
    /// The kind of the last framed fragment, `Empty` before any.
    pub last_record_type: RecordType,
    /// Bytes left in the current 32 KiB block.
    pub block_writer_rest_len: usize,
}

impl LogRecordWrite {
    /// The writer state is consistent: the room left in the current
    /// block matches the file length, and a completed append never
    /// leaves a fragmented record open.
    pub open spec fn wf(self) -> bool {
        &&& 0 < self.block_writer_rest_len <= BLOCK_SIZE
        &&& self.file_bytes@.len() as int % (BLOCK_SIZE as int) == BLOCK_SIZE as int
            - self.block_writer_rest_len as int
    }

    /// A writer over a fresh, empty log file named by the next sequence
    /// number.
    pub fn new(g: &mut SequenceGen) -> (r: Self)
        requires
            old(g).val < i64::MAX,
        ensures
            r.wf(),
            r.file_bytes@ == Seq::<u8>::empty(),
            r.block_writer_file == old(g).val,
            r.last_record_type == RecordType::Empty,
            r.block_writer_rest_len == BLOCK_SIZE,
            final(g).val == old(g).val + 1,
    {
        let seg = gen_sequence(g);
        LogRecordWrite {
            file_bytes: Vec::new(),
            block_writer_file: seg,
            last_record_type: RecordType::Empty,
            block_writer_rest_len: BLOCK_SIZE,
        }
    }

    /// The sequence number naming the log file currently written.
    pub fn write_log_path(&self) -> (r: i64)
        ensures
            r == self.block_writer_file,
    {
        self.block_writer_file
    }

    /// Appends one internal key to the log image.
    ///
    /// When the current file has reached 4 MiB the writer first rolls:
    /// it starts a fresh file named by the next sequence number and
    /// returns the number of the file it left behind, the caller's
    /// signal to swap memtables and schedule a minor compaction that
    /// ends in that file's deletion.
    pub fn add_records(&mut self, data: &Key, g: &mut SequenceGen) -> (r: Result<
        Option<i64>,
        WiscError,
    >)
        requires
            old(self).wf(),
            data.wf(),
            old(g).val < i64::MAX,
        ensures
            final(self).wf(),
            r is Ok,
            ({
                let rolled = old(self).file_bytes@.len() >= LOG_FILE_MAX_SIZE;
                let base_file: Seq<u8> = if rolled {
                    Seq::empty()
                } else {
                    old(self).file_bytes@
                };
                let base_last = if rolled {
                    RecordType::Empty
                } else {
                    old(self).last_record_type
                };
                let base_rest: int = if rolled {
                    BLOCK_SIZE as int
                } else {
                    old(self).block_writer_rest_len as int
                };
                let a = spec_add_process(base_last, base_rest, spec_encode_key(data@));
                &&& final(self).file_bytes@ == base_file + a.out
                &&& final(self).last_record_type == a.last
                &&& final(self).block_writer_rest_len == a.rest
                &&& (rolled ==> {
                    &&& r == Ok::<Option<i64>, WiscError>(Some(old(self).block_writer_file))
                    &&& final(self).block_writer_file == old(g).val
                    &&& final(g).val == old(g).val + 1
                })
                &&& (!rolled ==> {
                    &&& r == Ok::<Option<i64>, WiscError>(Option::None)
                    &&& final(self).block_writer_file == old(self).block_writer_file
                    &&& final(g).val == old(g).val
                })
            }),
    {
        let ghost pre0 = *self;
        let mut new_path: Option<i64> = Option::None;
        if self.file_bytes.len() as u64 >= LOG_FILE_MAX_SIZE {
            // the caller is told the file that filled up, not the new one
            new_path = Some(self.block_writer_file);
            let seg = gen_sequence(g);
            self.file_bytes = Vec::new();
            self.block_writer_file = seg;
            self.last_record_type = RecordType::Empty;
            self.block_writer_rest_len = BLOCK_SIZE;
        }
        let ghost base = *self;
        let data_byte = data.encode();
        self.add_process(&data_byte, 0);
        proof {
            assert(data_byte@.skip(0) =~= data_byte@);
            let a = spec_add_process(
                base.last_record_type,
                base.block_writer_rest_len as int,
                data_byte@,
            );
            assert(self.file_bytes@ =~= base.file_bytes@ + a.out);
            if pre0.file_bytes@.len() >= LOG_FILE_MAX_SIZE {
                assert(base.file_bytes@ =~= Seq::<u8>::empty());
                assert(self.file_bytes@ =~= Seq::<u8>::empty() + a.out);
            }
        }
        Ok(new_path)
    }

    /// Frames `payload[from..]` into the file image, fragmenting and
    /// padding as the block layout demands.
    fn add_process(&mut self, payload: &Vec<u8>, from: usize)
        requires
            old(self).wf(),
            from <= payload@.len(),
        ensures
            final(self).wf(),
            ({
                let a = spec_add_process(
                    old(self).last_record_type,
                    old(self).block_writer_rest_len as int,
                    payload@.skip(from as int),
                );
                &&& final(self).file_bytes@ == old(self).file_bytes@ + a.out
                &&& final(self).last_record_type == a.last
                &&& final(self).block_writer_rest_len == a.rest
                &&& final(self).block_writer_file == old(self).block_writer_file
            }),
        decreases payload@.len() - from, pad_steps(old(self).block_writer_rest_len as int),
    {
        if from >= payload.len() {
            proof {
                assert(payload@.skip(from as int) =~= Seq::<u8>::empty());
                assert(final(self).file_bytes@ =~= old(self).file_bytes@);
            }
            return ;
        }
        let ghost pre = *self;
        let ghost whole = payload@.skip(from as int);
        if self.block_writer_rest_len > RECORD_HEADER_SIZE {
            let free: usize = self.block_writer_rest_len - RECORD_HEADER_SIZE;
            if payload.len() - from > free {
                let t = if self.continues_exec() {
                    RecordType::Middle
                } else {
                    RecordType::First
                };
                self.write_for_type(payload, from, from + free, t);
                proof {
                    assert(whole.subrange(0, free as int) =~= payload@.subrange(
                        from as int,
                        from as int + free as int,
                    ));
                    assert(whole.subrange(free as int, whole.len() as int) =~= payload@.skip(
                        from as int + free as int,
                    ));
                }
                self.add_process(payload, from + free);
                proof {
                    let a = spec_add_process(
                        pre.last_record_type,
                        pre.block_writer_rest_len as int,
                        whole,
                    );
                    assert(final(self).file_bytes@ =~= pre.file_bytes@ + a.out);
                }
            } else {
                let t = if self.continues_exec() {
                    RecordType::Last
                } else {
                    RecordType::Full
                };
                self.write_for_type(payload, from, payload.len(), t);
                proof {
                    assert(whole.subrange(0, whole.len() as int) =~= payload@.subrange(
                        from as int,
                        payload@.len() as int,
                    ));
                    assert(whole =~= payload@.subrange(from as int, payload@.len() as int));
                }
            }
        } else if self.block_writer_rest_len == RECORD_HEADER_SIZE {
            // no room for any payload byte: a zero header closes the block
            let header = RecordHeader::default();
            let mut head_bytes = encode_header(&header);
            self.file_bytes.append(&mut head_bytes);
            self.block_writer_rest_len = BLOCK_SIZE;
            proof {
                vstd::arithmetic::div_mod::lemma_mod_self_0(BLOCK_SIZE as int);
                vstd::arithmetic::div_mod::lemma_mod_adds(
                    pre.file_bytes@.len() as int,
                    RECORD_HEADER_SIZE as int,
                    BLOCK_SIZE as int,
                );
            }
            self.add_process(payload, from);
            proof {
                let a = spec_add_process(
                    pre.last_record_type,
                    pre.block_writer_rest_len as int,
                    whole,
                );
                assert(final(self).file_bytes@ =~= pre.file_bytes@ + a.out);
            }
        } else {
            // not even a header fits: zero padding closes the block
            let pad: usize = self.block_writer_rest_len;
            push_zeros(&mut self.file_bytes, pad);
            self.block_writer_rest_len = BLOCK_SIZE;
            proof {
                vstd::arithmetic::div_mod::lemma_mod_adds(
                    pre.file_bytes@.len() as int,
                    pad as int,
                    BLOCK_SIZE as int,
                );
            }
            self.add_process(payload, from);
            proof {
                let a = spec_add_process(
                    pre.last_record_type,
                    pre.block_writer_rest_len as int,
                    whole,
                );
                assert(final(self).file_bytes@ =~= pre.file_bytes@ + a.out);
            }
        }
    }

    /// True when the previous fragment leaves a record open.
    fn continues_exec(&self) -> (r: bool)
        ensures
            r == continues(self.last_record_type),
    {
        match self.last_record_type {
            RecordType::First => true,
            RecordType::Middle => true,
            _ => false,
        }
    }

    /// Frames `payload[from..to]` as one record of kind `t` and appends
    /// it to the file image.
    fn write_for_type(&mut self, payload: &Vec<u8>, from: usize, to: usize, t: RecordType)
        requires
            old(self).wf(),
            from <= to <= payload@.len(),
            RECORD_HEADER_SIZE + (to - from) <= old(self).block_writer_rest_len,
            t is Full || t is First || t is Middle || t is Last,
        ensures
            final(self).wf(),
            final(self).file_bytes@ == old(self).file_bytes@ + spec_frame(
                payload@.subrange(from as int, to as int),
                t,
            ),
            final(self).last_record_type == t,
            final(self).block_writer_file == old(self).block_writer_file,
            final(self).block_writer_rest_len as int == ({
                let rest2 = old(self).block_writer_rest_len - RECORD_HEADER_SIZE - (to - from);
                if rest2 == 0 {
                    BLOCK_SIZE as int
                } else {
                    rest2
                }
            }),
    {
        let ghost pre = *self;
        let chunk = slice_to_vec(slice_subrange(payload.as_slice(), from, to));
        let crc = checksum(chunk.as_slice());
        let header = RecordHeader::new(crc, t.code(), (to - from) as u64);
        let mut head_bytes = encode_header(&header);
        let written: usize = RECORD_HEADER_SIZE + (to - from);
        self.file_bytes.append(&mut head_bytes);
        let mut chunk_bytes = chunk;
        self.file_bytes.append(&mut chunk_bytes);
        self.block_writer_rest_len = self.block_writer_rest_len - written;
        if self.block_writer_rest_len == 0 {
            self.block_writer_rest_len = BLOCK_SIZE;
        }
        self.last_record_type = t;
        proof {
            assert(final(self).file_bytes@ =~= pre.file_bytes@ + spec_frame(
                payload@.subrange(from as int, to as int),
                t,
            ));
            vstd::arithmetic::div_mod::lemma_mod_adds(
                pre.file_bytes@.len() as int,
                written as int,
                BLOCK_SIZE as int,
            );
            vstd::arithmetic::div_mod::lemma_mod_self_0(BLOCK_SIZE as int);
        }
    }
}

/// Appends `n` zero bytes to `v`.
fn push_zeros(v: &mut Vec<u8>, n: usize)
    ensures
        final(v)@ == old(v)@ + zero_bytes(n as int),
{
    let mut i: usize = 0;
    while i < n
        invariant
            i <= n,
            v@ =~= old(v)@ + zero_bytes(i as int),
        decreases n - i,
    {
        v.push(0);
        i = i + 1;
        proof {
            assert(v@ =~= old(v)@ + zero_bytes(i as int));
        }
    }
    proof {
        assert(final(v)@ =~= old(v)@ + zero_bytes(n as int));
    }
}


/// The reader's running state: the records recovered so far and the
/// carry of fragment payloads belonging to a record that is still open.
#[verifier::ext_equal]
pub ghost struct ReadState {
    pub acc: Seq<KeyM>,
    pub carry: Seq<u8>,
}

/// How one 32 KiB block is parsed, starting at offset `at`.
///
/// - Too little room for a header, or an `Empty` header: the rest of
///   the block is padding; parsing stops.
/// - `Full`: the payload is read back; with a matching CRC it is
///   decoded and recovered (an undecodable payload is dropped), and
///   parsing continues after it.
/// - `First`/`Middle`: the rest of the block is the fragment's payload;
///   with a matching CRC it joins the carry, otherwise the carry is
///   discarded. Parsing stops at the block boundary either way.
/// - Any other kind is read as `Last`: the payload completes the carry,
///   which is decoded and recovered on a matching CRC and discarded
///   otherwise, and parsing continues after it.
pub open spec fn spec_read_record_process(block: Seq<u8>, at: int, st: ReadState) -> ReadState
    decreases block.len() - at,
    when 0 <= at
{
    if at + RECORD_HEADER_SIZE > block.len() {
        st
    } else {
        let h = spec_parse_header(block, at);
        if h._type == RecordType::Empty.code_spec() {
            st
        } else if h._type == RecordType::Full.code_spec() {
            if at + RECORD_HEADER_SIZE + h.value_len > block.len() {
                st
            } else {
                let payload = block.subrange(
                    at + RECORD_HEADER_SIZE,
                    at + RECORD_HEADER_SIZE + h.value_len,
                );
                let next = at + RECORD_HEADER_SIZE + h.value_len as int;
                if crc32_of(payload) == h.checksum {
                    let acc2 = match spec_parse_key(payload) {
                        Option::Some(m) => st.acc + seq![m],
                        Option::None => st.acc,
                    };
                    spec_read_record_process(
                        block,
                        next,
                        ReadState { acc: acc2, carry: st.carry },
                    )
                } else {
                    spec_read_record_process(block, next, st)
                }
            }
        } else if h._type == RecordType::First.code_spec() || h._type
            == RecordType::Middle.code_spec() {
            let payload = block.subrange(at + RECORD_HEADER_SIZE, block.len() as int);
            if crc32_of(payload) == h.checksum {
                ReadState { acc: st.acc, carry: st.carry + payload }
            } else {
                ReadState { acc: st.acc, carry: Seq::empty() }
            }
        } else {
            if at + RECORD_HEADER_SIZE + h.value_len > block.len() {
                st
            } else {
                let payload = block.subrange(
                    at + RECORD_HEADER_SIZE,
                    at + RECORD_HEADER_SIZE + h.value_len,
                );
                let next = at + RECORD_HEADER_SIZE + h.value_len as int;
                if crc32_of(payload) == h.checksum {
                    let full = st.carry + payload;
                    let acc2 = match spec_parse_key(full) {
                        Option::Some(m) => st.acc + seq![m],
                        Option::None => st.acc,
                    };
                    spec_read_record_process(
                        block,
                        next,
                        ReadState { acc: acc2, carry: Seq::empty() },
                    )
                } else {
                    spec_read_record_process(
                        block,
                        next,
                        ReadState { acc: st.acc, carry: Seq::empty() },
                    )
                }
            }
        }
    }
}

/// The 32 KiB block starting at `off`, zero-padded past the end of the
/// file, exactly as the reader's zero-initialised block buffer sees it.
pub open spec fn padded_block(bytes: Seq<u8>, off: int) -> Seq<u8> {
    Seq::new(BLOCK_SIZE as nat, |j: int| if off + j < bytes.len() { bytes[off + j] } else { 0u8 })
}

/// Parses every block of the file, first block first.
pub open spec fn spec_read_blocks(bytes: Seq<u8>, st: ReadState) -> ReadState
    decreases bytes.len(),
{
    if bytes.len() == 0 {
        st
    } else {
        let st2 = spec_read_record_process(padded_block(bytes, 0), 0, st);
        if bytes.len() <= BLOCK_SIZE {
            st2
        } else {
            spec_read_blocks(bytes.skip(BLOCK_SIZE as int), st2)
        }
    }
}

/// Every record recovered from a WAL file image: the file is walked in
/// 32 KiB blocks, fragments are reassembled across blocks, and each
/// record whose CRC matches and whose payload decodes is kept, in log
/// order.
pub open spec fn spec_read_log(bytes: Seq<u8>) -> Seq<KeyM> {
    spec_read_blocks(bytes, ReadState { acc: Seq::empty(), carry: Seq::empty() }).acc
}

/// The content of each key in a sequence.
pub open spec fn key_views(keys: Seq<Key>) -> Seq<KeyM> {
    keys.map_values(|k: Key| k@)
}

/// The read half of the WAL: it replays the byte image of the one log
/// file that survived the last run, rebuilding the records to seed the
/// mutable memtable.
#[derive(Debug)]
pub struct LogRecordRead {
    /// The log file image handed in at construction, if one survived.
    pub block_reader: Option<Vec<u8>>,
    /// Carry of fragment payloads of a record that is still open.
    pub value_byte: Vec<u8>,
    /// Bytes consumed so far.
    pub have_read_len: u64,
    /// The records recovered, in log order.
    pub recovery_data: Vec<Key>,
}

impl LogRecordRead {
    /// A reader over the surviving log file's bytes, or over nothing.
    pub fn new(file_bytes: Option<Vec<u8>>) -> (r: Self)
        requires
            file_bytes matches Some(f) ==> f@.len() + BLOCK_SIZE <= usize::MAX,
        ensures
            r.block_reader == file_bytes,
            r.value_byte@ == Seq::<u8>::empty(),
            r.recovery_data@ == Seq::<Key>::empty(),
            r.wf(),
    {
        LogRecordRead {
            block_reader: file_bytes,
            value_byte: Vec::new(),
            have_read_len: 0,
            recovery_data: Vec::new(),
        }
    }

    /// The file image is small enough to walk with a block cursor.
    pub open spec fn wf(self) -> bool {
        self.block_reader matches Some(f) ==> f@.len() + BLOCK_SIZE <= usize::MAX
    }

    /// Replays the whole log file into `recovery_data`. Every record
    /// with a matching CRC and a decodable payload is recovered; a
    /// corrupt record is dropped and reading continues.
    pub fn read_log(&mut self) -> (r: Result<(), WiscError>)
        requires
            old(self).wf(),
            old(self).value_byte@ == Seq::<u8>::empty(),
            old(self).recovery_data@ == Seq::<Key>::empty(),
        ensures
            r is Ok,
            final(self).block_reader == old(self).block_reader,
            final(self).wf(),
            key_views(final(self).recovery_data@) == ({
                match old(self).block_reader {
                    Some(f) => spec_read_log(f@),
                    Option::None => Seq::<KeyM>::empty(),
                }
            }),
            forall|i: int|
                0 <= i < final(self).recovery_data@.len() ==> (
                #[trigger] final(self).recovery_data@[i]).wf(),
    {
        let file = match &self.block_reader {
            Some(f) => f.clone(),
            Option::None => {
                proof {
                    assert(key_views(self.recovery_data@) =~= Seq::<KeyM>::empty());
                }
                return Ok(());
            },
        };
        let n: usize = file.len();
        let mut off: usize = 0;
        let mut value_byte: Vec<u8> = Vec::new();
        let mut recovery_data: Vec<Key> = Vec::new();
        proof {
            assert(key_views(recovery_data@) =~= Seq::<KeyM>::empty());
            assert(file@.skip(0) =~= file@);
        }
        while off < n
            invariant
                n == file@.len(),
                n + BLOCK_SIZE <= usize::MAX,
                off <= n,
                spec_read_blocks(
                    file@,
                    ReadState { acc: Seq::empty(), carry: Seq::empty() },
                ) == spec_read_blocks(
                    file@.skip(off as int),
                    ReadState { acc: key_views(recovery_data@), carry: value_byte@ },
                ),
                forall|i: int|
                    0 <= i < recovery_data@.len() ==> (#[trigger] recovery_data@[i]).wf(),
            decreases n - off,
        {
            let ghost rest = file@.skip(off as int);
            let mut block: Vec<u8> = Vec::with_capacity(BLOCK_SIZE);
            let mut j: usize = 0;
            while j < BLOCK_SIZE
                invariant
                    j <= BLOCK_SIZE,
                    off + BLOCK_SIZE <= usize::MAX,
                    n == file@.len(),
                    block@ =~= padded_block(file@, off as int).subrange(0, j as int),
                decreases BLOCK_SIZE - j,
            {
                if off + j < n {
                    let b = file[off + j];
                    block.push(b);
                } else {
                    block.push(0);
                }
                j = j + 1;
                proof {
                    assert(block@ =~= padded_block(file@, off as int).subrange(0, j as int));
                }
            }
            proof {
                assert(padded_block(file@, off as int).subrange(0, BLOCK_SIZE as int)
                    =~= padded_block(file@, off as int));
                assert(block@ =~= padded_block(rest, 0));
            }
            read_record_process(&block, 0, &mut value_byte, &mut recovery_data);
            if n - off <= BLOCK_SIZE {
                proof {
                    assert(rest.len() <= BLOCK_SIZE);
                }
                off = n;
                proof {
                    assert(file@.skip(n as int) =~= Seq::<u8>::empty());
                }
            } else {
                off = off + BLOCK_SIZE;
                proof {
                    assert(rest.skip(BLOCK_SIZE as int) =~= file@.skip(off as int));
                }
            }
        }
        proof {
            assert(file@.skip(n as int) =~= Seq::<u8>::empty());
        }
        self.have_read_len = n as u64;
        self.value_byte = value_byte;
        self.recovery_data = recovery_data;
        Ok(())
    }
}

/// Parses the records of one zero-padded block from offset `at` on,
/// growing the carry and the recovered records exactly as
/// [`spec_read_record_process`] says.
fn read_record_process(
    block: &Vec<u8>,
    at: usize,
    value_byte: &mut Vec<u8>,
    recovery_data: &mut Vec<Key>,
)
    requires
        block@.len() == BLOCK_SIZE,
        at <= BLOCK_SIZE,
        forall|i: int|
            0 <= i < old(recovery_data)@.len() ==> (#[trigger] old(recovery_data)@[i]).wf(),
    ensures
        ({
            let st = spec_read_record_process(
                block@,
                at as int,
                ReadState {
                    acc: key_views(old(recovery_data)@),
                    carry: old(value_byte)@,
                },
            );
            &&& key_views(final(recovery_data)@) == st.acc
            &&& final(value_byte)@ == st.carry
        }),
        forall|i: int|
            0 <= i < final(recovery_data)@.len() ==> (#[trigger] final(recovery_data)@[i]).wf(),
    decreases BLOCK_SIZE - at,
{
    if at + RECORD_HEADER_SIZE > BLOCK_SIZE {
        return ;
    }
    let header = decode_header(block, at);
    if header._type == 0 {
        // an Empty header: the rest of the block is padding
        return ;
    }
    if header._type == 1 {
        // Full: the whole record sits here
        if header.value_len > (BLOCK_SIZE - at - RECORD_HEADER_SIZE) as u64 {
            return ;
        }
        let len: usize = header.value_len as usize;
        let payload = slice_to_vec(
            slice_subrange(block.as_slice(), at + RECORD_HEADER_SIZE, at + RECORD_HEADER_SIZE + len),
        );
        if crate::common::fn_util::checksum_verify(payload.as_slice(), header.checksum) {
            match Key::decode(&payload) {
                Ok(key_test) => {
                    recovery_data.push(key_test);
                    proof {
                        assert(key_views(recovery_data@) =~= key_views(old(recovery_data)@)
                            + seq![spec_parse_key(payload@).unwrap()]);
                    }
                },
                Err(_) => {
                    // an undecodable record is dropped; reading goes on
                },
            }
        }
        read_record_process(block, at + RECORD_HEADER_SIZE + len, value_byte, recovery_data);
        return ;
    }
    if header._type == 2 || header._type == 3 {
        // First or Middle: the fragment fills the block to its end
        let payload = slice_to_vec(
            slice_subrange(block.as_slice(), at + RECORD_HEADER_SIZE, BLOCK_SIZE),
        );
        if crate::common::fn_util::checksum_verify(payload.as_slice(), header.checksum) {
            let mut p = payload;
            value_byte.append(&mut p);
        } else {
            value_byte.clear();
            proof {
                assert(value_byte@ =~= Seq::<u8>::empty());
            }
        }
        return ;
    }
    // read as Last: the fragment completes the carried record
    if header.value_len > (BLOCK_SIZE - at - RECORD_HEADER_SIZE) as u64 {
        return ;
    }
    let len: usize = header.value_len as usize;
    let payload = slice_to_vec(
        slice_subrange(block.as_slice(), at + RECORD_HEADER_SIZE, at + RECORD_HEADER_SIZE + len),
    );
    if crate::common::fn_util::checksum_verify(payload.as_slice(), header.checksum) {
        let mut p = payload;
        let ghost carry0 = value_byte@;
        value_byte.append(&mut p);
        match Key::decode(value_byte) {
            Ok(key_test) => {
                recovery_data.push(key_test);
                proof {
                    assert(key_views(recovery_data@) =~= key_views(old(recovery_data)@)
                        + seq![spec_parse_key(value_byte@).unwrap()]);
                }
            },
            Err(_) => {
                // an undecodable record is dropped; reading goes on
            },
        }
        value_byte.clear();
    } else {
        value_byte.clear();
    }
    proof {
        assert(value_byte@ =~= Seq::<u8>::empty());
    }
    read_record_process(block, at + RECORD_HEADER_SIZE + len, value_byte, recovery_data);
}


/// The payloads of a run of fragments, in order, as one byte sequence.
pub open spec fn frags_payload(fs: Seq<Frag>) -> Seq<u8>
    decreases fs.len(),
{
    if fs.len() == 0 {
        Seq::empty()
    } else {
        fs[0].data + frags_payload(fs.drop_first())
    }
}

/// The kind the `i`-th of `n` fragments must carry when the run starts
/// in a continuing state (`cont`): a lone fragment is `Last` (or
/// `Full` when nothing is continued), the opening fragment of a longer
/// run is `Middle` (or `First`), the closing one `Last`, and every
/// fragment between them `Middle`.
pub open spec fn expected_frag_type(cont: bool, i: int, n: int) -> RecordType {
    if i == 0 {
        if n == 1 {
            if cont {
                RecordType::Last
            } else {
                RecordType::Full
            }
        } else {
            if cont {
                RecordType::Middle
            } else {
                RecordType::First
            }
        }
    } else if i == n - 1 {
        RecordType::Last
    } else {
        RecordType::Middle
    }
}

/// The fragment discipline of one append: the framed fragments carry
/// the whole payload, in order and nothing else, their kinds follow
/// the `Full`, or `First Middle* Last`, pattern (continuing an open
/// run with `Middle`/`Last`), and the append leaves no run open.
pub proof fn lemma_fragment_discipline(last: RecordType, rest: int, payload: Seq<u8>)
    requires
        0 < rest <= BLOCK_SIZE,
    ensures
        ({
            let a = spec_add_process(last, rest, payload);
            &&& frags_payload(a.frags) == payload
            &&& (payload.len() == 0 ==> a.frags.len() == 0)
            &&& (payload.len() > 0 ==> a.frags.len() >= 1)
            &&& (forall|i: int|
                0 <= i < a.frags.len() ==> (#[trigger] a.frags[i]).t == expected_frag_type(
                    continues(last),
                    i,
                    a.frags.len() as int,
                ))
            &&& (payload.len() > 0 ==> !continues(a.last))
            &&& (payload.len() > 0 ==> (a.last == a.frags[a.frags.len() - 1].t))
        }),
    decreases payload.len(), pad_steps(rest),
{
    let a = spec_add_process(last, rest, payload);
    if payload.len() == 0 {
        assert(frags_payload(a.frags) =~= payload);
    } else if rest > RECORD_HEADER_SIZE {
        let free = rest - RECORD_HEADER_SIZE;
        if payload.len() > free {
            let t = if continues(last) {
                RecordType::Middle
            } else {
                RecordType::First
            };
            let head = payload.subrange(0, free);
            let tail = payload.subrange(free, payload.len() as int);
            lemma_fragment_discipline(t, BLOCK_SIZE as int, tail);
            let a2 = spec_add_process(t, BLOCK_SIZE as int, tail);
            assert(a.frags.drop_first() =~= a2.frags);
            assert(frags_payload(a.frags) =~= head + frags_payload(a2.frags));
            assert(head + tail =~= payload);
            assert forall|i: int| 0 <= i < a.frags.len() implies (#[trigger] a.frags[i]).t
                == expected_frag_type(continues(last), i, a.frags.len() as int) by {
                if i > 0 {
                    assert(a.frags[i] == a2.frags[i - 1]);
                    assert(a2.frags[i - 1].t == expected_frag_type(
                        continues(t),
                        i - 1,
                        a2.frags.len() as int,
                    ));
                }
            }
        } else {
            assert(a.frags.drop_first() =~= Seq::<Frag>::empty());
            assert(frags_payload(a.frags) == a.frags[0].data + frags_payload(
                a.frags.drop_first(),
            ));
            assert(frags_payload(a.frags.drop_first()) =~= Seq::<u8>::empty());
            assert(payload + Seq::<u8>::empty() =~= payload);
        }
    } else {
        lemma_fragment_discipline(last, BLOCK_SIZE as int, payload);
    }
}

/// Every frame stores, in its header, the CRC-32 checksum of exactly
/// the payload bytes that follow it, and their length: reading the
/// frame back yields a matching checksum.
pub proof fn lemma_frame_carries_checksum(payload: Seq<u8>, t: RecordType)
    requires
        payload.len() <= u64::MAX,
    ensures
        spec_parse_header(spec_frame(payload, t), 0).checksum == crc32_of(payload),
        spec_parse_header(spec_frame(payload, t), 0).value_len == payload.len(),
        spec_parse_header(spec_frame(payload, t), 0)._type == t.code_spec(),
        spec_frame(payload, t).subrange(
            RECORD_HEADER_SIZE as int,
            RECORD_HEADER_SIZE + payload.len(),
        ) == payload,
{
    lemma_auto_spec_u32_to_from_le_bytes();
    lemma_auto_spec_u64_to_from_le_bytes();
    let h = RecordHeader {
        checksum: crc32_of(payload),
        _type: t.code_spec(),
        value_len: payload.len() as u64,
    };
    let b = spec_frame(payload, t);
    assert(b.subrange(0, RECORD_HEADER_SIZE as int) =~= spec_encode_header(h));
    lemma_header_roundtrip(h, b, 0);
    assert(b.subrange(RECORD_HEADER_SIZE as int, RECORD_HEADER_SIZE + payload.len()) =~= payload);
}

/// A payload that exactly fills the room left in the block, header
/// included, goes out as one whole fragment — `Full`, or `Last` when
/// it closes an open run — never as a `First` fragment, and the next
/// append starts a fresh block.
pub proof fn lemma_exact_fit_stays_whole(last: RecordType, rest: int, payload: Seq<u8>)
    requires
        RECORD_HEADER_SIZE < rest <= BLOCK_SIZE,
        payload.len() == rest - RECORD_HEADER_SIZE,
    ensures
        ({
            let a = spec_add_process(last, rest, payload);
            &&& a.frags.len() == 1
            &&& a.frags[0].data == payload
            &&& a.frags[0].t == if continues(last) {
                RecordType::Last
            } else {
                RecordType::Full
            }
            &&& !(a.frags[0].t is First)
            &&& a.rest == BLOCK_SIZE
            &&& a.out == spec_frame(payload, a.frags[0].t)
        }),
{
}

/// With exactly a header's worth of room left, the writer lays down
/// the all-zero `Empty` sentinel header, closes the block, and retries
/// the same payload at the start of the next block.
pub proof fn lemma_header_room_emits_sentinel(last: RecordType, payload: Seq<u8>)
    requires
        payload.len() > 0,
    ensures
        ({
            let a = spec_add_process(last, RECORD_HEADER_SIZE as int, payload);
            let b = spec_add_process(last, BLOCK_SIZE as int, payload);
            &&& a.out == spec_encode_header(
                RecordHeader { checksum: 0, _type: 0, value_len: 0 },
            ) + b.out
            &&& a.out.subrange(0, RECORD_HEADER_SIZE as int) == spec_encode_header(
                RecordHeader { checksum: 0, _type: 0, value_len: 0 },
            )
            &&& spec_parse_header(a.out, 0)._type == RecordType::Empty.code_spec()
            &&& a.last == b.last
            &&& a.rest == b.rest
            &&& a.frags == b.frags
        }),
{
    lemma_auto_spec_u32_to_from_le_bytes();
    lemma_auto_spec_u64_to_from_le_bytes();
    let sentinel = RecordHeader { checksum: 0, _type: 0, value_len: 0 };
    let a = spec_add_process(last, RECORD_HEADER_SIZE as int, payload);
    assert(a.out.subrange(0, RECORD_HEADER_SIZE as int) =~= spec_encode_header(sentinel));
    lemma_header_roundtrip(sentinel, a.out, 0);
}


/// The reader's starting state: nothing recovered, nothing carried.
pub open spec fn init_read_state() -> ReadState {
    ReadState { acc: Seq::empty(), carry: Seq::empty() }
}

/// The records one whole payload contributes when read back: the one
/// key it decodes to, or nothing.
pub open spec fn parsed_one(whole: Seq<u8>) -> Seq<KeyM> {
    match spec_parse_key(whole) {
        Option::Some(m) => seq![m],
        Option::None => Seq::empty(),
    }
}

/// Parsing any block that starts with the bytes `bpre` reaches the end
/// of `bpre` carrying exactly `acc` and `carry`, whatever bytes follow:
/// the writer's framed prefix never makes the reader look past itself.
pub open spec fn parse_reaches(bpre: Seq<u8>, st: ReadState, acc: Seq<KeyM>, carry: Seq<u8>) -> bool {
    forall|z: Seq<u8>|
        bpre.len() + z.len() == BLOCK_SIZE ==> #[trigger] spec_read_record_process(bpre + z, 0, st)
            == spec_read_record_process(bpre + z, bpre.len() as int, ReadState { acc, carry })
}

/// Reading a whole (`Full`) or closing (`Last`) frame advances the
/// parse past it, recovering the completed record.
proof fn lemma_parse_step_whole(b: Seq<u8>, at: int, st: ReadState, payload: Seq<u8>, t: RecordType)
    requires
        b.len() == BLOCK_SIZE,
        0 <= at,
        at + RECORD_HEADER_SIZE + payload.len() <= BLOCK_SIZE,
        payload.len() <= u64::MAX,
        t is Full || t is Last,
        b.subrange(at, at + RECORD_HEADER_SIZE + payload.len()) == spec_frame(payload, t),
    ensures
        spec_read_record_process(b, at, st) == spec_read_record_process(
            b,
            at + RECORD_HEADER_SIZE + payload.len(),
            if t is Full {
                ReadState { acc: st.acc + parsed_one(payload), carry: st.carry }
            } else {
                ReadState { acc: st.acc + parsed_one(st.carry + payload), carry: Seq::empty() }
            },
        ),
{
    lemma_auto_spec_u32_to_from_le_bytes();
    lemma_auto_spec_u64_to_from_le_bytes();
    let h = RecordHeader {
        checksum: crc32_of(payload),
        _type: t.code_spec(),
        value_len: payload.len() as u64,
    };
    let frame = b.subrange(at, at + RECORD_HEADER_SIZE + payload.len());
    assert(b.subrange(at, at + RECORD_HEADER_SIZE) =~= frame.subrange(0, RECORD_HEADER_SIZE as int));
    assert(frame.subrange(0, RECORD_HEADER_SIZE as int) =~= spec_encode_header(h));
    lemma_header_roundtrip(h, b, at);
    assert(b.subrange(at + RECORD_HEADER_SIZE, at + RECORD_HEADER_SIZE + h.value_len) =~= payload)
        by {
        assert(frame.subrange(RECORD_HEADER_SIZE as int, frame.len() as int) =~= payload);
    }
    if t is Full {
        match spec_parse_key(payload) {
            Option::Some(m) => {
                assert(st.acc + parsed_one(payload) =~= st.acc + seq![m]);
            },
            Option::None => {
                assert(st.acc + parsed_one(payload) =~= st.acc);
                assert(spec_read_record_process(b, at, st) == spec_read_record_process(
                    b,
                    at + RECORD_HEADER_SIZE + payload.len(),
                    ReadState { acc: st.acc + parsed_one(payload), carry: st.carry },
                ));
            },
        }
    } else {
        match spec_parse_key(st.carry + payload) {
            Option::Some(m) => {
                assert(st.acc + parsed_one(st.carry + payload) =~= st.acc + seq![m]);
            },
            Option::None => {
                assert(st.acc + parsed_one(st.carry + payload) =~= st.acc);
            },
        }
    }
}

/// Reading an opening (`First`) or continuing (`Middle`) frame, which
/// always fills its block to the end, adds its payload to the carry
/// and stops at the block boundary.
proof fn lemma_parse_step_frag(b: Seq<u8>, at: int, st: ReadState, payload: Seq<u8>, t: RecordType)
    requires
        b.len() == BLOCK_SIZE,
        0 <= at,
        at + RECORD_HEADER_SIZE + payload.len() == BLOCK_SIZE,
        payload.len() <= u64::MAX,
        t is First || t is Middle,
        b.subrange(at, BLOCK_SIZE as int) == spec_frame(payload, t),
    ensures
        spec_read_record_process(b, at, st) == (ReadState {
            acc: st.acc,
            carry: st.carry + payload,
        }),
{
    lemma_auto_spec_u32_to_from_le_bytes();
    lemma_auto_spec_u64_to_from_le_bytes();
    let h = RecordHeader {
        checksum: crc32_of(payload),
        _type: t.code_spec(),
        value_len: payload.len() as u64,
    };
    let frame = b.subrange(at, BLOCK_SIZE as int);
    assert(b.subrange(at, at + RECORD_HEADER_SIZE) =~= frame.subrange(0, RECORD_HEADER_SIZE as int));
    assert(frame.subrange(0, RECORD_HEADER_SIZE as int) =~= spec_encode_header(h));
    lemma_header_roundtrip(h, b, at);
    assert(b.subrange(at + RECORD_HEADER_SIZE, b.len() as int) =~= payload) by {
        assert(frame.subrange(RECORD_HEADER_SIZE as int, frame.len() as int) =~= payload);
    }
}

/// With only zero bytes (or no room for a header) from `at` on, the
/// block's parse stops there.
proof fn lemma_parse_stop_zeros(b: Seq<u8>, at: int, st: ReadState)
    requires
        b.len() == BLOCK_SIZE,
        0 <= at <= BLOCK_SIZE,
        forall|i: int| at <= i < BLOCK_SIZE ==> b[i] == 0,
    ensures
        spec_read_record_process(b, at, st) == st,
{
    if at + RECORD_HEADER_SIZE <= BLOCK_SIZE {
        assert(b[at + 4] == 0);
    }
}

/// A sentinel header's type byte is zero: the parse stops on it.
proof fn lemma_parse_stop_sentinel(b: Seq<u8>, at: int, st: ReadState)
    requires
        b.len() == BLOCK_SIZE,
        0 <= at,
        at + RECORD_HEADER_SIZE <= BLOCK_SIZE,
        b.subrange(at, at + RECORD_HEADER_SIZE) == spec_encode_header(
            RecordHeader { checksum: 0, _type: 0, value_len: 0 },
        ),
    ensures
        spec_read_record_process(b, at, st) == st,
{
    lemma_auto_spec_u32_to_from_le_bytes();
    let h = RecordHeader { checksum: 0, _type: 0, value_len: 0 };
    assert(b[at + 4] == spec_encode_header(h)[4]);
    assert(spec_encode_header(h)[4] == 0);
}

/// Parsing a run of whole blocks followed by more bytes is parsing the
/// blocks and then the rest.
proof fn lemma_read_blocks_concat(x: Seq<u8>, y: Seq<u8>, st: ReadState)
    requires
        x.len() as int % (BLOCK_SIZE as int) == 0,
    ensures
        spec_read_blocks(x + y, st) == spec_read_blocks(y, spec_read_blocks(x, st)),
    decreases x.len(),
{
    if x.len() == 0 {
        assert(x + y =~= y);
    } else {
        assert(x.len() >= BLOCK_SIZE) by {
            if x.len() < BLOCK_SIZE {
                vstd::arithmetic::div_mod::lemma_small_mod(x.len(), BLOCK_SIZE as nat);
            }
        }
        assert(x.skip(BLOCK_SIZE as int).len() as int % (BLOCK_SIZE as int) == 0) by {
            vstd::arithmetic::div_mod::lemma_mod_sub_multiples_vanish(
                x.len() as int,
                BLOCK_SIZE as int,
            );
        }
        assert(padded_block(x + y, 0) =~= padded_block(x, 0));
        let st2 = spec_read_record_process(padded_block(x, 0), 0, st);
        if y.len() == 0 {
            assert(x + y =~= x);
            if x.len() <= BLOCK_SIZE {
            } else {
                lemma_read_blocks_concat(x.skip(BLOCK_SIZE as int), y, st2);
                assert(x.skip(BLOCK_SIZE as int) + y =~= x.skip(BLOCK_SIZE as int));
            }
        } else {
            assert((x + y).len() > BLOCK_SIZE);
            assert((x + y).skip(BLOCK_SIZE as int) =~= x.skip(BLOCK_SIZE as int) + y);
            if x.len() == BLOCK_SIZE {
                assert(x.skip(BLOCK_SIZE as int) =~= Seq::<u8>::empty());
                lemma_read_blocks_concat(x.skip(BLOCK_SIZE as int), y, st2);
            } else {
                lemma_read_blocks_concat(x.skip(BLOCK_SIZE as int), y, st2);
            }
        }
    }
}


/// What one append establishes for the reader: the bytes written
/// after `bpre` split into whole blocks and a partial tail; parsing
/// the whole blocks from `st` gives a state from which the tail is
/// reached carrying the extended recovery and an empty carry.
pub open spec fn recovery_extended(
    bpre: Seq<u8>,
    st: ReadState,
    acc: Seq<KeyM>,
    a: AddResult,
    whole: Seq<u8>,
) -> bool {
    let full = bpre + a.out;
    let tlen = BLOCK_SIZE - a.rest;
    let cut = full.len() - tlen;
    &&& 0 <= cut <= full.len()
    &&& cut % (BLOCK_SIZE as int) == 0
    &&& parse_reaches(
        full.skip(cut),
        spec_read_blocks(full.take(cut), st),
        acc + parsed_one(whole),
        Seq::empty(),
    )
    &&& (tlen == 0 ==> spec_read_blocks(full.take(cut), st) == (ReadState {
        acc: acc + parsed_one(whole),
        carry: Seq::empty(),
    }))
}

/// The heart of the write/read round trip: appending one record's
/// remaining bytes to a block that already holds `bpre` extends what
/// the reader recovers by exactly that record and leaves no carry
/// behind.
#[verifier::spinoff_prover]
#[verifier::rlimit(100)]
proof fn lemma_add_process_recovery(
    bpre: Seq<u8>,
    st: ReadState,
    acc: Seq<KeyM>,
    carry: Seq<u8>,
    last: RecordType,
    rest: int,
    payload: Seq<u8>,
    whole: Seq<u8>,
)
    requires
        0 < rest <= BLOCK_SIZE,
        bpre.len() == BLOCK_SIZE - rest,
        parse_reaches(bpre, st, acc, carry),
        carry + payload == whole,
        whole.len() <= u64::MAX,
        payload.len() > 0,
        continues(last) <==> carry.len() > 0,
    ensures
        recovery_extended(bpre, st, acc, spec_add_process(last, rest, payload), whole),
    decreases payload.len(), pad_steps(rest), 1int,
{
    let a = spec_add_process(last, rest, payload);
    let full = bpre + a.out;
    let recovered = acc + parsed_one(whole);
    let ns = ReadState { acc: recovered, carry: Seq::empty() };
    if rest > RECORD_HEADER_SIZE {
        let free = rest - RECORD_HEADER_SIZE;
        if payload.len() <= free {
            // the whole remainder fits: one Full or Last frame
            let t = if continues(last) {
                RecordType::Last
            } else {
                RecordType::Full
            };
            let frame = spec_frame(payload, t);
            let used = RECORD_HEADER_SIZE + payload.len() as int;
            assert(a.out == frame);
            if !continues(last) {
                assert(carry =~= Seq::<u8>::empty());
                assert(whole =~= payload);
            }
            assert(frame.len() == used) by {
                lemma_auto_spec_u32_to_from_le_bytes();
                lemma_auto_spec_u64_to_from_le_bytes();
            }
            if rest - used > 0 {
                // the block stays open: everything written is tail
                assert(a.rest == rest - used);
                let cut = full.len() - (BLOCK_SIZE - a.rest);
                assert(cut == 0);
                assert(full.take(0) =~= Seq::<u8>::empty());
                assert(full.skip(0) =~= full);
                assert forall|z: Seq<u8>| full.len() + z.len() == BLOCK_SIZE implies
                    spec_read_record_process(full + z, 0, st) == spec_read_record_process(
                    full + z,
                    full.len() as int,
                    ns,
                ) by {
                    let b = full + z;
                    assert(bpre + (frame + z) =~= b);
                    assert(bpre.len() + (frame + z).len() == BLOCK_SIZE);
                    assert(spec_read_record_process(bpre + (frame + z), 0, st)
                        == spec_read_record_process(
                        bpre + (frame + z),
                        bpre.len() as int,
                        ReadState { acc, carry },
                    ));
                    assert(b.subrange(bpre.len() as int, bpre.len() + used) =~= frame);
                    lemma_parse_step_whole(
                        b,
                        bpre.len() as int,
                        ReadState { acc, carry },
                        payload,
                        t,
                    );
                    if t is Full {
                        assert(acc + parsed_one(payload) =~= recovered);
                    } else {
                        assert(acc + parsed_one(carry + payload) =~= recovered);
                    }
                    assert(spec_read_record_process(b, bpre.len() + used, ns)
                        == spec_read_record_process(b, full.len() as int, ns));
                }
            } else {
                // the frame closes the block exactly
                assert(a.rest == BLOCK_SIZE);
                let cut = full.len() as int;
                assert(full.len() == BLOCK_SIZE);
                assert(full.take(cut) =~= full);
                assert(full.skip(cut) =~= Seq::<u8>::empty());
                let st2 = spec_read_blocks(full, st);
                assert(padded_block(full, 0) =~= full);
                assert(bpre + frame =~= full);
                assert(bpre.len() + frame.len() == BLOCK_SIZE);
                assert(spec_read_record_process(bpre + frame, 0, st)
                    == spec_read_record_process(
                    bpre + frame,
                    bpre.len() as int,
                    ReadState { acc, carry },
                ));
                assert(full.subrange(bpre.len() as int, bpre.len() + used) =~= frame);
                lemma_parse_step_whole(
                    full,
                    bpre.len() as int,
                    ReadState { acc, carry },
                    payload,
                    t,
                );
                if t is Full {
                    assert(acc + parsed_one(payload) =~= recovered);
                } else {
                    assert(acc + parsed_one(carry + payload) =~= recovered);
                }
                assert(st2 == ns);
            }
        } else {
            // a First or Middle fragment fills the block; the rest of
            // the record recurses into a fresh block
            let t = if continues(last) {
                RecordType::Middle
            } else {
                RecordType::First
            };
            let head = payload.subrange(0, free);
            let tail = payload.subrange(free, payload.len() as int);
            let frame = spec_frame(head, t);
            let block = bpre + frame;
            assert(frame.len() == RECORD_HEADER_SIZE + free) by {
                lemma_auto_spec_u32_to_from_le_bytes();
                lemma_auto_spec_u64_to_from_le_bytes();
            }
            assert(block.len() == BLOCK_SIZE);
            let mid = ReadState { acc, carry: carry + head };
            assert(spec_read_record_process(block, 0, st) == mid) by {
                assert(bpre.len() + frame.len() == BLOCK_SIZE);
                assert(spec_read_record_process(bpre + frame, 0, st)
                    == spec_read_record_process(
                    bpre + frame,
                    bpre.len() as int,
                    ReadState { acc, carry },
                ));
                assert(block.subrange(bpre.len() as int, BLOCK_SIZE as int) =~= frame);
                lemma_parse_step_frag(
                    block,
                    bpre.len() as int,
                    ReadState { acc, carry },
                    head,
                    t,
                );
            }
            assert((carry + head) + tail =~= whole);
            lemma_recovery_continue(block, st, acc, carry + head, t, tail, whole);
            let a2 = spec_add_process(t, BLOCK_SIZE as int, tail);
            assert(a.out =~= frame + a2.out);
            assert(a.rest == a2.rest);
            lemma_recovery_reframe(bpre, frame, a2, st, recovered);
            assert(bpre + (frame + a2.out) =~= bpre + a.out);
        }
    } else if rest == RECORD_HEADER_SIZE {
        // a zero sentinel header closes the block; retry in the next
        let sentinel = spec_encode_header(RecordHeader { checksum: 0, _type: 0, value_len: 0 });
        let block = bpre + sentinel;
        assert(sentinel.len() == RECORD_HEADER_SIZE) by {
            lemma_auto_spec_u32_to_from_le_bytes();
            lemma_auto_spec_u64_to_from_le_bytes();
        }
        assert(block.len() == BLOCK_SIZE);
        let mid = ReadState { acc, carry };
        assert(spec_read_record_process(block, 0, st) == mid) by {
            assert(bpre.len() + sentinel.len() == BLOCK_SIZE);
            assert(spec_read_record_process(bpre + sentinel, 0, st) == spec_read_record_process(
                bpre + sentinel,
                bpre.len() as int,
                mid,
            ));
            assert(block.subrange(bpre.len() as int, bpre.len() + RECORD_HEADER_SIZE)
                =~= sentinel);
            lemma_parse_stop_sentinel(block, bpre.len() as int, mid);
        }
        lemma_recovery_continue(block, st, acc, carry, last, payload, whole);
        let a2 = spec_add_process(last, BLOCK_SIZE as int, payload);
        assert(a.out =~= sentinel + a2.out);
        assert(a.rest == a2.rest);
        lemma_recovery_reframe(bpre, sentinel, a2, st, recovered);
        assert(bpre + (sentinel + a2.out) =~= bpre + a.out);
    } else {
        // zero padding closes the block; retry in the next
        let pad = zero_bytes(rest);
        let block = bpre + pad;
        assert(block.len() == BLOCK_SIZE);
        let mid = ReadState { acc, carry };
        assert(spec_read_record_process(block, 0, st) == mid) by {
            assert(bpre.len() + pad.len() == BLOCK_SIZE);
            assert(spec_read_record_process(bpre + pad, 0, st) == spec_read_record_process(
                bpre + pad,
                bpre.len() as int,
                mid,
            ));
            assert(bpre.len() + RECORD_HEADER_SIZE > BLOCK_SIZE);
        }
        lemma_recovery_continue(block, st, acc, carry, last, payload, whole);
        let a2 = spec_add_process(last, BLOCK_SIZE as int, payload);
        assert(a.out =~= pad + a2.out);
        assert(a.rest == a2.rest);
        lemma_recovery_reframe(bpre, pad, a2, st, recovered);
        assert(bpre + (pad + a2.out) =~= bpre + a.out);
    }
}

/// The recursion step shared by every branch that closes the current
/// block: with the closed block parsed to `(acc, carry)`, writing the
/// rest of the record into fresh blocks extends the recovery the same
/// way.
#[verifier::spinoff_prover]
#[verifier::rlimit(100)]
proof fn lemma_recovery_continue(
    block: Seq<u8>,
    st: ReadState,
    acc: Seq<KeyM>,
    carry: Seq<u8>,
    last: RecordType,
    payload: Seq<u8>,
    whole: Seq<u8>,
)
    requires
        block.len() == BLOCK_SIZE,
        spec_read_record_process(block, 0, st) == (ReadState { acc, carry }),
        carry + payload == whole,
        whole.len() <= u64::MAX,
        payload.len() > 0,
        continues(last) <==> carry.len() > 0,
    ensures
        recovery_extended(
            Seq::empty(),
            ReadState { acc, carry },
            acc,
            spec_add_process(last, BLOCK_SIZE as int, payload),
            whole,
        ),
    decreases payload.len(), pad_steps(BLOCK_SIZE as int), 2int,
{
    let mid = ReadState { acc, carry };
    assert(parse_reaches(Seq::empty(), mid, acc, carry)) by {
        assert forall|z: Seq<u8>| Seq::<u8>::empty().len() + z.len() == BLOCK_SIZE implies
            spec_read_record_process(Seq::<u8>::empty() + z, 0, mid) == spec_read_record_process(
            Seq::<u8>::empty() + z,
            0,
            ReadState { acc, carry },
        ) by {
        }
    }
    lemma_add_process_recovery(
        Seq::empty(),
        mid,
        acc,
        carry,
        last,
        BLOCK_SIZE as int,
        payload,
        whole,
    );
}

/// Moves a recovery decomposition across a closed leading block: if
/// the bytes after that block decompose for the state the block parses
/// to, then block-plus-bytes decompose for the state before it.
#[verifier::spinoff_prover]
#[verifier::rlimit(100)]
proof fn lemma_recovery_reframe(
    bpre: Seq<u8>,
    closing: Seq<u8>,
    a2: AddResult,
    st: ReadState,
    recovered: Seq<KeyM>,
)
    requires
        (bpre + closing).len() == BLOCK_SIZE,
        ({
            let mid = spec_read_record_process(bpre + closing, 0, st);
            let full2 = Seq::<u8>::empty() + a2.out;
            let tlen2 = BLOCK_SIZE - a2.rest;
            let cut2 = full2.len() - tlen2;
            &&& 0 <= cut2 <= full2.len()
            &&& cut2 % (BLOCK_SIZE as int) == 0
            &&& parse_reaches(
                full2.skip(cut2),
                spec_read_blocks(full2.take(cut2), mid),
                recovered,
                Seq::empty(),
            )
            &&& (tlen2 == 0 ==> spec_read_blocks(full2.take(cut2), mid) == (ReadState {
                acc: recovered,
                carry: Seq::empty(),
            }))
        }),
    ensures
        ({
            let full = bpre + (closing + a2.out);
            let tlen = BLOCK_SIZE - a2.rest;
            let cut = full.len() - tlen;
            &&& 0 <= cut <= full.len()
            &&& cut % (BLOCK_SIZE as int) == 0
            &&& parse_reaches(
                full.skip(cut),
                spec_read_blocks(full.take(cut), st),
                recovered,
                Seq::empty(),
            )
            &&& (tlen == 0 ==> spec_read_blocks(full.take(cut), st) == (ReadState {
                acc: recovered,
                carry: Seq::empty(),
            }))
        }),
{
    let block = bpre + closing;
    let mid = spec_read_record_process(block, 0, st);
    let full2 = Seq::<u8>::empty() + a2.out;
    let tlen = BLOCK_SIZE - a2.rest;
    let cut2 = full2.len() - tlen;
    let full = bpre + (closing + a2.out);
    let cut = full.len() - tlen;
    assert(full =~= block + a2.out);
    assert(full2 =~= a2.out);
    assert(cut == BLOCK_SIZE + cut2);
    assert(cut % (BLOCK_SIZE as int) == 0) by {
        vstd::arithmetic::div_mod::lemma_mod_add_multiples_vanish(cut2, BLOCK_SIZE as int);
    }
    assert(full.take(cut) =~= block + full2.take(cut2));
    assert(full.skip(cut) =~= full2.skip(cut2));
    lemma_read_blocks_concat(block, full2.take(cut2), st);
    assert(spec_read_blocks(block, st) == spec_read_record_process(padded_block(block, 0), 0, st));
    assert(padded_block(block, 0) =~= block);
    assert(spec_read_blocks(full.take(cut), st) == spec_read_blocks(full2.take(cut2), mid));
}

/// The writer's file recovers to exactly `acc`: the file splits at
/// `cut` into whole blocks and the current partial block, the whole
/// blocks parse from a fresh reader to some state, and from that state
/// the partial block's content is walked to its end with `acc`
/// recovered and nothing carried.
pub open spec fn wal_recovery_inv(file: Seq<u8>, rest: int, acc: Seq<KeyM>) -> bool {
    let tlen = BLOCK_SIZE - rest;
    let cut = file.len() - tlen;
    &&& 0 < rest <= BLOCK_SIZE
    &&& file.len() >= tlen
    &&& cut % (BLOCK_SIZE as int) == 0
    &&& parse_reaches(
        file.skip(cut),
        spec_read_blocks(file.take(cut), init_read_state()),
        acc,
        Seq::empty(),
    )
    &&& (rest == BLOCK_SIZE ==> spec_read_blocks(file.take(cut), init_read_state()) == (ReadState {
        acc,
        carry: Seq::empty(),
    }))
}

/// A file in the recovery invariant reads back to exactly its records.
pub proof fn lemma_recovery_inv_read_log(file: Seq<u8>, rest: int, acc: Seq<KeyM>)
    requires
        wal_recovery_inv(file, rest, acc),
    ensures
        spec_read_log(file) == acc,
{
    let tlen = BLOCK_SIZE - rest;
    let cut = file.len() - tlen;
    let st = spec_read_blocks(file.take(cut), init_read_state());
    assert(file.take(cut) + file.skip(cut) =~= file);
    lemma_read_blocks_concat(file.take(cut), file.skip(cut), init_read_state());
    assert(spec_read_blocks(file, init_read_state()) == spec_read_blocks(file.skip(cut), st));
    if tlen == 0 {
        assert(file.skip(cut) =~= Seq::<u8>::empty());
        assert(spec_read_blocks(Seq::<u8>::empty(), st) == st);
    } else {
        let tail = file.skip(cut);
        assert(tail.len() == tlen);
        let z = zero_bytes(BLOCK_SIZE - tlen);
        assert(tail.len() + z.len() == BLOCK_SIZE);
        assert(spec_read_record_process(tail + z, 0, st) == spec_read_record_process(
            tail + z,
            tail.len() as int,
            ReadState { acc, carry: Seq::empty() },
        ));
        assert(padded_block(tail, 0) =~= tail + z);
        lemma_parse_stop_zeros(tail + z, tail.len() as int, ReadState { acc, carry: Seq::empty() });
        assert(spec_read_blocks(tail, st) == spec_read_record_process(padded_block(tail, 0), 0, st));
    }
}

/// A fresh, empty log file recovers to nothing.
pub proof fn lemma_recovery_inv_init()
    ensures
        wal_recovery_inv(Seq::empty(), BLOCK_SIZE as int, Seq::empty()),
{
    let e = Seq::<u8>::empty();
    assert(e.take(0) =~= e);
    assert(e.skip(0) =~= e);
    assert(spec_read_blocks(e, init_read_state()) == init_read_state());
    assert(parse_reaches(e, init_read_state(), Seq::empty(), Seq::empty())) by {
        assert forall|z: Seq<u8>| e.len() + z.len() == BLOCK_SIZE implies
            spec_read_record_process(e + z, 0, init_read_state()) == spec_read_record_process(
            e + z,
            0,
            ReadState { acc: Seq::empty(), carry: Seq::empty() },
        ) by {
        }
    }
}

/// The writer's room left in the block stays within one block.
proof fn lemma_add_process_rest_bounds(last: RecordType, rest: int, payload: Seq<u8>)
    requires
        0 < rest <= BLOCK_SIZE,
    ensures
        0 < spec_add_process(last, rest, payload).rest <= BLOCK_SIZE,
    decreases payload.len(), pad_steps(rest),
{
    if payload.len() == 0 {
    } else if rest > RECORD_HEADER_SIZE {
        let free = rest - RECORD_HEADER_SIZE;
        if payload.len() > free {
            lemma_add_process_rest_bounds(
                if continues(last) {
                    RecordType::Middle
                } else {
                    RecordType::First
                },
                BLOCK_SIZE as int,
                payload.subrange(free, payload.len() as int),
            );
        }
    } else {
        lemma_add_process_rest_bounds(last, BLOCK_SIZE as int, payload);
    }
}

/// Appending one well-formed key keeps the log in the recovery
/// invariant, with exactly that key added to what the reader gets
/// back: nothing already in the log is lost or changed, and the new
/// record is recovered whole, however it was fragmented or padded.
pub proof fn lemma_append_preserves_recovery(
    file: Seq<u8>,
    last: RecordType,
    rest: int,
    acc: Seq<KeyM>,
    m: KeyM,
)
    requires
        wal_recovery_inv(file, rest, acc),
        file.len() as int % (BLOCK_SIZE as int) == BLOCK_SIZE - rest,
        !continues(last),
        m.wf(),
        spec_encode_key(m).len() <= u64::MAX,
    ensures
        ({
            let a = spec_add_process(last, rest, spec_encode_key(m));
            &&& wal_recovery_inv(file + a.out, a.rest, acc + seq![m])
            &&& (file + a.out).len() as int % (BLOCK_SIZE as int) == BLOCK_SIZE - a.rest
        }),
{
    lemma_auto_spec_u64_to_from_le_bytes();
    let w = spec_encode_key(m);
    assert(w.len() > 0);
    let tlen = BLOCK_SIZE - rest;
    let cut = file.len() - tlen;
    let bpre = file.skip(cut);
    let st = spec_read_blocks(file.take(cut), init_read_state());
    assert(bpre.len() == BLOCK_SIZE - rest);
    assert(Seq::<u8>::empty() + w =~= w);
    lemma_add_process_recovery(bpre, st, acc, Seq::empty(), last, rest, w, w);
    let a = spec_add_process(last, rest, w);
    lemma_add_process_rest_bounds(last, rest, w);
    let full = bpre + a.out;
    let tlen2 = BLOCK_SIZE - a.rest;
    let cut2 = full.len() - tlen2;
    let nf = file + a.out;
    let ncut = nf.len() - tlen2;
    assert(ncut == cut + cut2);
    assert(ncut % (BLOCK_SIZE as int) == 0) by {
        vstd::arithmetic::div_mod::lemma_add_mod_noop(cut, cut2, BLOCK_SIZE as int);
    }
    assert(nf.len() as int % (BLOCK_SIZE as int) == tlen2) by {
        vstd::arithmetic::div_mod::lemma_mod_add_multiples_vanish(tlen2, BLOCK_SIZE as int);
        vstd::arithmetic::div_mod::lemma_add_mod_noop(ncut, tlen2, BLOCK_SIZE as int);
        vstd::arithmetic::div_mod::lemma_small_mod(tlen2 as nat, BLOCK_SIZE as nat);
    }
    assert(nf.take(ncut) =~= file.take(cut) + full.take(cut2));
    assert(nf.skip(ncut) =~= full.skip(cut2));
    lemma_read_blocks_concat(file.take(cut), full.take(cut2), init_read_state());
    assert(spec_read_blocks(nf.take(ncut), init_read_state()) == spec_read_blocks(
        full.take(cut2),
        st,
    ));
    lemma_key_roundtrip(m);
    assert(parsed_one(w) =~= seq![m]);
    assert(acc + parsed_one(w) =~= acc + seq![m]);
}

/// The log image a run of appends builds, starting from a fresh file.
#[verifier::ext_equal]
pub ghost struct WalImage {
    pub file: Seq<u8>,
    pub last: RecordType,
    pub rest: int,
}

/// Appends every key in order into a fresh log file.
pub open spec fn wal_build(keys: Seq<KeyM>) -> WalImage
    decreases keys.len(),
{
    if keys.len() == 0 {
        WalImage { file: Seq::empty(), last: RecordType::Empty, rest: BLOCK_SIZE as int }
    } else {
        let w = wal_build(keys.drop_last());
        let a = spec_add_process(w.last, w.rest, spec_encode_key(keys.last()));
        WalImage { file: w.file + a.out, last: a.last, rest: a.rest }
    }
}

/// The write/read round trip of the write-ahead log: a log file built
/// by appending any run of well-formed keys reads back to exactly
/// those keys, in order — every record survives its fragmentation
/// across blocks, the padding, and the block walk of recovery.
pub proof fn lemma_wal_recovery_exact(keys: Seq<KeyM>)
    requires
        forall|i: int| 0 <= i < keys.len() ==> (#[trigger] keys[i]).wf(),
        forall|i: int|
            0 <= i < keys.len() ==> spec_encode_key(#[trigger] keys[i]).len() <= u64::MAX,
    ensures
        spec_read_log(wal_build(keys).file) == keys,
        wal_recovery_inv(wal_build(keys).file, wal_build(keys).rest, keys),
        !continues(wal_build(keys).last),
        wal_build(keys).file.len() as int % (BLOCK_SIZE as int) == BLOCK_SIZE - wal_build(
            keys,
        ).rest,
    decreases keys.len(),
{
    if keys.len() == 0 {
        lemma_recovery_inv_init();
        let w = wal_build(keys);
        assert(keys =~= Seq::<KeyM>::empty());
        assert(w.file == Seq::<u8>::empty());
        assert(wal_recovery_inv(w.file, w.rest, keys));
        lemma_recovery_inv_read_log(w.file, w.rest, keys);
    } else {
        lemma_wal_recovery_exact(keys.drop_last());
        let w = wal_build(keys.drop_last());
        let m = keys.last();
        lemma_append_preserves_recovery(w.file, w.last, w.rest, keys.drop_last(), m);
        assert(keys.drop_last() + seq![m] =~= keys);
        let a = spec_add_process(w.last, w.rest, spec_encode_key(m));
        lemma_fragment_discipline(w.last, w.rest, spec_encode_key(m));
        assert(spec_encode_key(m).len() > 0) by {
            lemma_auto_spec_u64_to_from_le_bytes();
        }
        let w2 = wal_build(keys);
        lemma_recovery_inv_read_log(w2.file, w2.rest, keys);
    }
}

} // verus!
