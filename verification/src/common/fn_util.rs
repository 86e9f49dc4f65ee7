//! Checksums, the sequence counter, decimal formatting and file-name
//! helpers.

use vstd::prelude::*;
use vstd::string::StrSliceExecFns;
use vstd::string::StringExecFns;

verus! {

/// The CRC-32 (IEEE) checksum of a byte sequence, as computed by the
/// `crc32fast` crate. Left uninterpreted: contracts relate stored and
/// recomputed checksums through this name alone.
pub uninterp spec fn crc32_of(bytes: Seq<u8>) -> u32;

/// Relies on `crc32fast::Hasher` (`new`/`update`/`finalize`): the CRC-32
/// checksum of `content`, a function of the bytes alone.
#[verifier::external_body]
pub fn checksum(content: &[u8]) -> (r: u32)
    ensures
        r == crc32_of(content@),
{
    let mut hasher = crc32fast::Hasher::new();
    hasher.update(content);
    hasher.finalize()
}

/// True exactly when `old_checksum` is the CRC-32 checksum of `content`.
pub fn checksum_verify(content: &[u8], old_checksum: u32) -> (r: bool)
    ensures
        r == (crc32_of(content@) == old_checksum),
{
    checksum(content) == old_checksum
}

/// Relies on `std::time::SystemTime::now` and `duration_since`: the
/// wall-clock time in milliseconds since the Unix epoch, or zero when
/// the clock reads earlier than the epoch. Nothing is promised of the
/// value; callers must cope with any result. No path in the body can
/// panic.
#[verifier::external_body]
pub fn now_millis() -> i64 {
    match std::time::SystemTime::now().duration_since(std::time::UNIX_EPOCH) {
        Ok(d) => i64::try_from(d.as_millis()).unwrap_or(i64::MAX),
        Err(_) => 0,
    }
}

/// Relies on `String::push`: appends exactly the one character.
#[verifier::external_body]
pub fn push_char(s: &mut String, c: char)
    ensures
        final(s)@ == old(s)@ + seq![c],
{
    s.push(c);
}

/// The process-wide sequence source. It starts from the wall-clock
/// millisecond at engine open and grows by one per handed-out value, so
/// values are strictly increasing within a process.
pub struct SequenceGen {
    /// The next value to hand out.
    pub val: i64,
}

impl SequenceGen {
    /// A generator seeded with the wall-clock millisecond.
    pub fn new() -> (r: Self) {
        SequenceGen { val: now_millis() }
    }

    /// A generator starting at a chosen value.
    pub fn with_seed(seed: i64) -> (r: Self)
        ensures
            r.val == seed,
    {
        SequenceGen { val: seed }
    }
}

/// Hands out the next sequence value and advances the generator; the
/// results of successive calls are strictly increasing.
pub fn gen_sequence(g: &mut SequenceGen) -> (r: i64)
    requires
        old(g).val < i64::MAX,
    ensures
        r == old(g).val,
        final(g).val == old(g).val + 1,
{
    let r: i64 = g.val;
    g.val = g.val + 1;
    r
}

/// True exactly when the two strings hold the same characters.
pub fn str_eq(a: &str, b: &str) -> (r: bool)
    ensures
        r == (a@ == b@),
{
    let av = a.as_bytes_vec();
    let bv = b.as_bytes_vec();
    if av.len() != bv.len() {
        proof {
            assert(a@ != b@);
        }
        return false;
    }
    let n: usize = av.len();
    let mut i: usize = 0;
    while i < n
        invariant
            n == av@.len(),
            n == bv@.len(),
            av@ == vstd::utf8::encode_utf8(a@),
            bv@ == vstd::utf8::encode_utf8(b@),
            i <= n,
            forall|k: int| 0 <= k < i ==> av@[k] == bv@[k],
        decreases n - i,
    {
        if av[i] != bv[i] {
            proof {
                assert(av@ != bv@);
                assert(a@ != b@);
            }
            return false;
        }
        i = i + 1;
    }
    proof {
        assert(av@ =~= bv@);
        vstd::utf8::encode_utf8_decode_utf8(a@);
        vstd::utf8::encode_utf8_decode_utf8(b@);
        assert(a@ == b@);
    }
    true
}

/// The character for a single decimal digit.
pub open spec fn digit_char(d: int) -> char
    recommends
        0 <= d <= 9,
{
    if d == 0 {
        '0'
    } else if d == 1 {
        '1'
    } else if d == 2 {
        '2'
    } else if d == 3 {
        '3'
    } else if d == 4 {
        '4'
    } else if d == 5 {
        '5'
    } else if d == 6 {
        '6'
    } else if d == 7 {
        '7'
    } else if d == 8 {
        '8'
    } else {
        '9'
    }
}

/// The one-character string for a single decimal digit.
fn digit_str(d: u64) -> (r: &'static str)
    requires
        d <= 9,
    ensures
        r@ == seq![digit_char(d as int)],
{
    proof {
        reveal_strlit("0");
        reveal_strlit("1");
        reveal_strlit("2");
        reveal_strlit("3");
        reveal_strlit("4");
        reveal_strlit("5");
        reveal_strlit("6");
        reveal_strlit("7");
        reveal_strlit("8");
        reveal_strlit("9");
    }
    match d {
        0 => "0",
        1 => "1",
        2 => "2",
        3 => "3",
        4 => "4",
        5 => "5",
        6 => "6",
        7 => "7",
        8 => "8",
        _ => "9",
    }
}

/// The decimal digits of `n`, most significant first, no leading zeros
/// (a single `'0'` for zero).
pub open spec fn spec_dec_u64(n: nat) -> Seq<char>
    decreases n,
{
    if n < 10 {
        seq![digit_char(n as int)]
    } else {
        spec_dec_u64(n / 10) + seq![digit_char((n % 10) as int)]
    }
}

/// The decimal rendering of a signed value: a minus sign followed by the
/// digits of the magnitude, or just the digits.
pub open spec fn spec_dec_i64(n: int) -> Seq<char> {
    if n < 0 {
        seq!['-'] + spec_dec_u64((-n) as nat)
    } else {
        spec_dec_u64(n as nat)
    }
}

/// Renders `n` in decimal.
pub fn u64_to_dec_string(n: u64) -> (r: String)
    ensures
        r@ == spec_dec_u64(n as nat),
{
    // digit values of n, least significant first
    let mut rev: Vec<u64> = Vec::new();
    let mut m: u64 = n;
    while m > 0
        invariant
            forall|k: int| 0 <= k < rev@.len() ==> #[trigger] rev@[k] <= 9,
            m > 0 ==> spec_dec_u64(n as nat) =~= spec_dec_u64(m as nat) + digits_of(rev@).reverse(),
            m == 0 ==> (n == 0 && rev@.len() == 0) || spec_dec_u64(n as nat) =~= digits_of(
                rev@,
            ).reverse(),
        decreases m,
    {
        let ghost rev0 = rev@;
        let ghost m0 = m as nat;
        let d: u64 = m % 10;
        rev.push(d);
        m = m / 10;
        proof {
            assert(digits_of(rev@).reverse() =~= seq![digit_char(d as int)] + digits_of(
                rev0,
            ).reverse());
            if m0 >= 10 {
                assert(spec_dec_u64(m0) == spec_dec_u64(m0 / 10) + seq![
                    digit_char((m0 % 10) as int),
                ]);
                assert(spec_dec_u64(n as nat) =~= spec_dec_u64(m as nat) + digits_of(
                    rev@,
                ).reverse());
            } else {
                assert(spec_dec_u64(m0) == seq![digit_char(m0 as int)]);
                assert(spec_dec_u64(n as nat) =~= digits_of(rev@).reverse());
            }
        }
    }
    let mut s = String::new();
    if rev.len() == 0 {
        s.append(digit_str(0));
        return s;
    }
    let mut i: usize = rev.len();
    while i > 0
        invariant
            i <= rev@.len(),
            forall|k: int| 0 <= k < rev@.len() ==> #[trigger] rev@[k] <= 9,
            spec_dec_u64(n as nat) =~= digits_of(rev@).reverse(),
            s@ =~= digits_of(rev@.subrange(i as int, rev@.len() as int)).reverse(),
        decreases i,
    {
        i = i - 1;
        let d: u64 = rev[i];
        s.append(digit_str(d));
        proof {
            assert(s@ =~= digits_of(rev@.subrange(i as int, rev@.len() as int)).reverse());
        }
    }
    proof {
        assert(rev@.subrange(0, rev@.len() as int) =~= rev@);
        assert(s@ == spec_dec_u64(n as nat));
    }
    s
}

/// The characters for a sequence of digit values, in the order given.
pub open spec fn digits_of(ds: Seq<u64>) -> Seq<char> {
    ds.map_values(|d: u64| digit_char(d as int))
}

/// Renders `n` in decimal, with a leading minus sign when negative.
pub fn i64_to_dec_string(n: i64) -> (r: String)
    ensures
        r@ == spec_dec_i64(n as int),
{
    if n >= 0 {
        u64_to_dec_string(n as u64)
    } else {
        // magnitude computed in u64 so that the smallest value is in range
        let mag: u64 = ((-(n + 1)) as u64) + 1;
        assert(mag == -(n as int));
        let mut s = String::new();
        proof {
            reveal_strlit("-");
        }
        s.append("-");
        let digits = u64_to_dec_string(mag);
        s.append(digits.as_str());
        assert(s@ =~= spec_dec_i64(n as int));
        s
    }
}

/// The path of the numbered file inside `dir`: `dir`, a slash, the
/// decimal file number, then `file_suffix`.
pub fn get_file_path(dir: &str, gen: i64, file_suffix: &str) -> (r: String)
    ensures
        r@ == dir@ + "/"@ + spec_dec_i64(gen as int) + file_suffix@,
{
    let mut r = dir.to_owned();
    r.append("/");
    let digits = i64_to_dec_string(gen);
    r.append(digits.as_str());
    r.append(file_suffix);
    proof {
        assert(r@ =~= dir@ + "/"@ + spec_dec_i64(gen as int) + file_suffix@);
    }
    r
}

/// The path of the numbered log file inside `dir`: `dir`, a slash, the
/// decimal file number, then `file_suffix`.
pub fn get_log_path(dir: &str, gen: u64, file_suffix: &str) -> (r: String)
    ensures
        r@ == dir@ + "/"@ + spec_dec_u64(gen as nat) + file_suffix@,
{
    let mut r = dir.to_owned();
    r.append("/");
    let digits = u64_to_dec_string(gen);
    r.append(digits.as_str());
    r.append(file_suffix);
    proof {
        assert(r@ =~= dir@ + "/"@ + spec_dec_u64(gen as nat) + file_suffix@);
    }
    r
}

} // verus!
