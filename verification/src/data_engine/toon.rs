//! The Toon dataset format.
//!
//! A Toon payload is framed as `[magic "TOON" 4B][version 1B][record count
//! 4B little-endian][payload]`, where the payload holds one JSON record per
//! line, each line ended by a line feed. This module frames and unframes the
//! payload lines; turning records into JSON lines and back is left to the
//! JSON layer.

use vstd::prelude::*;

use crate::text::{item_offset, lemma_item_offset_grows, lemma_item_offset_nonneg, lemma_item_offset_take};
use vstd::string::StringSliceAdditionalSpecFns;
use vstd::utf8::{valid_utf8, valid_utf8_concat};

verus! {

/// The version byte that this module writes and accepts.
pub const TOON_VERSION: u8 = 1;

/// The length of the header: magic, version and record count.
pub const HEADER_LEN: usize = 9;

/// The byte that ends every payload line.
pub const LINE_FEED: u8 = 10;

/// Why a Toon buffer could not be written or read.
#[derive(Debug, Clone, Copy, PartialEq, Eq, Structural)]
pub enum ToonError {
    /// The buffer is shorter than the 9-byte header.
    TooShort,
    /// The buffer does not start with the magic bytes `TOON`.
    BadMagic,
    /// The version byte is not a supported version.
    UnsupportedVersion(u8),
    /// The payload is not valid UTF-8.
    InvalidUtf8,
    /// The number of payload lines differs from the declared record count.
    CountMismatch { declared: u32, found: usize },
    /// More records than a 32-bit count can declare.
    TooManyRecords,
    /// A record line holds a line feed and could not be framed.
    LineBreakInRecord,
}

/// The description of each error.
pub open spec fn error_message(e: ToonError) -> Seq<char> {
    match e {
        ToonError::TooShort => "Toon payload too short: missing header"@,
        ToonError::BadMagic => "Toon payload has invalid magic bytes"@,
        ToonError::UnsupportedVersion(_) => "Toon payload has an unsupported version"@,
        ToonError::InvalidUtf8 => "Toon payload is not valid UTF-8"@,
        ToonError::CountMismatch { .. } => "Toon record count does not match payload lines"@,
        ToonError::TooManyRecords => "too many records for a Toon record count"@,
        ToonError::LineBreakInRecord => "a Toon record line contains a line feed"@,
    }
}

impl ToonError {
    /// A short human-readable description of the error.
    pub fn message(&self) -> (r: &'static str)
        ensures
            r@ == error_message(*self),
    {
        match self {
            ToonError::TooShort => "Toon payload too short: missing header",
            ToonError::BadMagic => "Toon payload has invalid magic bytes",
            ToonError::UnsupportedVersion(_) => "Toon payload has an unsupported version",
            ToonError::InvalidUtf8 => "Toon payload is not valid UTF-8",
            ToonError::CountMismatch { .. } => "Toon record count does not match payload lines",
            ToonError::TooManyRecords => "too many records for a Toon record count",
            ToonError::LineBreakInRecord => "a Toon record line contains a line feed",
        }
    }
}

/// The magic bytes `TOON`.
pub open spec fn toon_magic() -> Seq<u8> {
    seq![84u8, 79u8, 79u8, 78u8]
}

/// The 4 little-endian bytes of `n`.
pub open spec fn le_u32_bytes(n: u32) -> Seq<u8> {
    seq![(n % 256) as u8, ((n / 256) % 256) as u8, ((n / 65536) % 256) as u8, (n / 16777216) as u8]
}

/// The number that 4 little-endian bytes encode.
pub open spec fn le_u32_value(b0: u8, b1: u8, b2: u8, b3: u8) -> int {
    b0 + 256 * b1 + 65536 * b2 + 16777216 * b3
}

/// The byte sequences held by a sequence of byte vectors.
pub open spec fn lines_view(lines: Seq<Vec<u8>>) -> Seq<Seq<u8>> {
    lines.map_values(|l: Vec<u8>| l@)
}

/// The payload made of `lines`, each followed by a line feed.
pub open spec fn join_lines(lines: Seq<Seq<u8>>) -> Seq<u8>
    decreases lines.len(),
{
    if lines.len() == 0 {
        Seq::empty()
    } else {
        join_lines(lines.drop_last()) + lines.last() + seq![LINE_FEED]
    }
}

/// No line holds a line feed.
pub open spec fn lines_unbroken(lines: Seq<Seq<u8>>) -> bool {
    forall|i: int| 0 <= i < lines.len() ==> !(#[trigger] lines[i]).contains(LINE_FEED)
}

/// `payload` ends its last line, if it has one, with a line feed.
pub open spec fn ends_with_line_feed(payload: Seq<u8>) -> bool {
    payload.len() == 0 || payload.last() == LINE_FEED
}

/// `lines` are the lines of `payload`: the payload is the lines, each ended by a
/// line feed, where the last line may lack its line feed.
pub open spec fn frames_payload(lines: Seq<Seq<u8>>, payload: Seq<u8>) -> bool {
    &&& lines_unbroken(lines)
    &&& if ends_with_line_feed(payload) {
        join_lines(lines) == payload
    } else {
        join_lines(lines) == payload.push(LINE_FEED)
    }
}

/// The number of line feeds in `s`.
pub open spec fn count_line_feeds(s: Seq<u8>) -> nat
    decreases s.len(),
{
    if s.len() == 0 {
        0
    } else {
        count_line_feeds(s.drop_last()) + if s.last() == LINE_FEED {
            1nat
        } else {
            0nat
        }
    }
}

/// The number of lines in `payload`.
pub open spec fn line_count(payload: Seq<u8>) -> nat {
    count_line_feeds(payload) + if ends_with_line_feed(payload) {
        0nat
    } else {
        1nat
    }
}

/// A complete Toon buffer for `lines`.
pub open spec fn toon_frame(lines: Seq<Seq<u8>>) -> Seq<u8> {
    toon_magic() + seq![TOON_VERSION] + le_u32_bytes(lines.len() as u32) + join_lines(lines)
}

/// What `serialize` gives for `lines`.
pub open spec fn serialize_result(lines: Seq<Seq<u8>>) -> Result<Seq<u8>, ToonError> {
    if lines.len() > u32::MAX {
        Err(ToonError::TooManyRecords)
    } else if !lines_unbroken(lines) {
        Err(ToonError::LineBreakInRecord)
    } else {
        Ok(toon_frame(lines))
    }
}

/// The payload of a Toon buffer: what follows the header.
pub open spec fn payload_of(bytes: Seq<u8>) -> Seq<u8> {
    bytes.subrange(HEADER_LEN as int, bytes.len() as int)
}

/// The record count that a Toon buffer declares.
pub open spec fn declared_count(bytes: Seq<u8>) -> int {
    le_u32_value(bytes[5], bytes[6], bytes[7], bytes[8])
}

/// Why `deserialize` refuses `bytes`, tested in this order, or `None` when it
/// accepts them.
pub open spec fn decode_error(bytes: Seq<u8>) -> Option<ToonError> {
    if bytes.len() < HEADER_LEN {
        Some(ToonError::TooShort)
    } else if bytes.take(4) != toon_magic() {
        Some(ToonError::BadMagic)
    } else if bytes[4] != TOON_VERSION {
        Some(ToonError::UnsupportedVersion(bytes[4]))
    } else if !valid_utf8(payload_of(bytes)) {
        Some(ToonError::InvalidUtf8)
    } else if line_count(payload_of(bytes)) != declared_count(bytes) {
        Some(
            ToonError::CountMismatch {
                declared: declared_count(bytes) as u32,
                found: line_count(payload_of(bytes)) as usize,
            },
        )
    } else {
        None
    }
}

/// The error type of `std::str::from_utf8`, carried through opaquely.
#[verifier::external_type_specification]
#[verifier::external_body]
pub struct ExUtf8Error(std::str::Utf8Error);

/// Calls `std::str::from_utf8`, which succeeds exactly on well-formed UTF-8
/// (no overlong forms, no surrogates, nothing above U+10FFFF) and then returns
/// the same bytes as a `str`; the contract states both.
#[verifier::external_body]
fn utf8_str(bytes: &[u8]) -> (r: Result<&str, std::str::Utf8Error>)
    ensures
        r is Ok <==> valid_utf8(bytes@),
        r matches Ok(s) ==> s.spec_bytes() == bytes@,
{
    std::str::from_utf8(bytes)
}

/// Serialize record lines into the Toon binary format.
///
/// Layout: [magic 4B][version 1B][record_count 4B LE][each line, then "\n"].
pub fn serialize(lines: &[Vec<u8>]) -> (r: Result<Vec<u8>, ToonError>)
    ensures
        match r {
            Ok(b) => serialize_result(lines_view(lines@)) == Ok::<Seq<u8>, ToonError>(b@),
            Err(e) => serialize_result(lines_view(lines@)) == Err::<Seq<u8>, ToonError>(e),
        },
{
    let ghost lv = lines_view(lines@);
    let n = lines.len();
    if n > 0xffff_ffffusize {
        return Err(ToonError::TooManyRecords);
    }
    let mut buf: Vec<u8> = Vec::new();
    buf.push(84u8);
    buf.push(79u8);
    buf.push(79u8);
    buf.push(78u8);
    buf.push(TOON_VERSION);
    let count = n as u32;
    buf.push((count % 256) as u8);
    buf.push(((count / 256) % 256) as u8);
    buf.push(((count / 65536) % 256) as u8);
    buf.push((count / 16777216) as u8);
    let ghost header = buf@;
    assert(header =~= toon_magic() + seq![TOON_VERSION] + le_u32_bytes(lv.len() as u32));
    let mut i: usize = 0;
    while i < n
        invariant
            n == lines@.len(),
            n <= u32::MAX,
            lv == lines_view(lines@),
            i <= n,
            header == toon_magic() + seq![TOON_VERSION] + le_u32_bytes(lv.len() as u32),
            buf@ == header + join_lines(lv.take(i as int)),
            lines_unbroken(lv.take(i as int)),
        decreases n - i,
    {
        let line = &lines[i];
        let ghost before = buf@;
        let m = line.len();
        let mut j: usize = 0;
        while j < m
            invariant
                m == line@.len(),
                n == lines@.len(),
                n <= u32::MAX,
                i < n,
                lv == lines_view(lines@),
                line@ == lines@[i as int]@,
                j <= m,
                buf@ == before + line@.take(j as int),
                forall|k: int| 0 <= k < j ==> line@[k] != LINE_FEED,
            decreases m - j,
        {
            let b = line[j];
            if b == LINE_FEED {
                proof {
                    assert(lv[i as int][j as int] == LINE_FEED);
                    assert(lv[i as int].contains(LINE_FEED));
                }
                return Err(ToonError::LineBreakInRecord);
            }
            buf.push(b);
            assert(line@.take(j + 1) =~= line@.take(j as int).push(b));
            j = j + 1;
        }
        buf.push(LINE_FEED);
        proof {
            assert(line@.take(m as int) =~= line@);
            assert(lv.take(i + 1).drop_last() =~= lv.take(i as int));
            assert(lv.take(i + 1).last() == line@);
            assert(buf@ =~= header + join_lines(lv.take(i + 1)));
            assert forall|k: int| 0 <= k < lv.take(i + 1).len() implies !(#[trigger] lv.take(i + 1)[k]).contains(LINE_FEED) by {
                if k == i {
                    assert(lv.take(i + 1)[k] == line@);
                } else {
                    assert(lv.take(i + 1)[k] == lv.take(i as int)[k]);
                }
            }
        }
        i = i + 1;
    }
    proof {
        assert(lv.take(n as int) =~= lv);
    }
    Ok(buf)
}

/// Deserialize a Toon buffer into its record lines.
///
/// The header must be complete, start with `TOON`, carry a supported version,
/// the payload must be UTF-8, and the number of payload lines must equal the
/// declared record count.
pub fn deserialize(bytes: &[u8]) -> (r: Result<Vec<Vec<u8>>, ToonError>)
    ensures
        match r {
            Ok(lines) => {
                &&& decode_error(bytes@) is None
                &&& frames_payload(lines_view(lines@), payload_of(bytes@))
                &&& lines@.len() == declared_count(bytes@)
            },
            Err(e) => decode_error(bytes@) == Some(e),
        },
{
    if bytes.len() < HEADER_LEN {
        return Err(ToonError::TooShort);
    }
    if bytes[0] != 84u8 || bytes[1] != 79u8 || bytes[2] != 79u8 || bytes[3] != 78u8 {
        proof {
            let t = bytes@.take(4);
            assert(t[0] == bytes@[0] && t[1] == bytes@[1] && t[2] == bytes@[2] && t[3] == bytes@[3]);
            assert(toon_magic()[0] == 84u8 && toon_magic()[1] == 79u8);
            assert(toon_magic()[2] == 79u8 && toon_magic()[3] == 78u8);
        }
        return Err(ToonError::BadMagic);
    }
    assert(bytes@.take(4) =~= toon_magic());
    if bytes[4] != TOON_VERSION {
        return Err(ToonError::UnsupportedVersion(bytes[4]));
    }
    let declared: u32 = bytes[5] as u32 + 256 * (bytes[6] as u32) + 65536 * (bytes[7] as u32)
        + 16777216 * (bytes[8] as u32);
    assert(declared == declared_count(bytes@));
    let payload = &bytes[HEADER_LEN..bytes.len()];
    assert(payload@ == payload_of(bytes@));
    if utf8_str(payload).is_err() {
        return Err(ToonError::InvalidUtf8);
    }
    let ghost p = payload@;
    let mut lines: Vec<Vec<u8>> = Vec::new();
    let mut cur: Vec<u8> = Vec::new();
    let n = payload.len();
    let mut i: usize = 0;
    while i < n
        invariant
            n == p.len(),
            p == payload@,
            i <= n,
            join_lines(lines_view(lines@)) + cur@ == p.take(i as int),
            lines_unbroken(lines_view(lines@)),
            !cur@.contains(LINE_FEED),
            lines@.len() == count_line_feeds(p.take(i as int)),
            i > 0 && cur@.len() == 0 ==> p[i - 1] == LINE_FEED,
            cur@.len() > 0 ==> i > 0 && p[i - 1] == cur@.last(),
        decreases n - i,
    {
        let b = payload[i];
        let ghost old_lines = lines_view(lines@);
        assert(p.take(i + 1) =~= p.take(i as int).push(b));
        assert(p.take(i + 1).drop_last() =~= p.take(i as int));
        if b == LINE_FEED {
            let line = cur;
            cur = Vec::new();
            lines.push(line);
            proof {
                let lv = lines_view(lines@);
                assert(lv.drop_last() =~= old_lines);
                assert(lv.last() == line@);
                assert(join_lines(lv) =~= p.take(i + 1));
                assert forall|k: int| 0 <= k < lv.len() implies !(#[trigger] lv[k]).contains(LINE_FEED) by {
                    if k < old_lines.len() {
                        assert(lv[k] == old_lines[k]);
                    }
                }
            }
        } else {
            let ghost old_cur = cur@;
            cur.push(b);
            proof {
                assert(lines_view(lines@) == old_lines);
                assert(join_lines(old_lines) + cur@ =~= p.take(i + 1));
                if cur@.contains(LINE_FEED) {
                    let k = choose|k: int| 0 <= k < cur@.len() && cur@[k] == LINE_FEED;
                    if k < old_cur.len() {
                        assert(old_cur[k] == LINE_FEED);
                    }
                }
            }
        }
        i = i + 1;
    }
    assert(p.take(n as int) =~= p);
    if cur.len() > 0 {
        let ghost old_lines = lines_view(lines@);
        let line = cur;
        lines.push(line);
        proof {
            let lv = lines_view(lines@);
            assert(lv.drop_last() =~= old_lines);
            assert(join_lines(lv) =~= p.push(LINE_FEED));
            assert forall|k: int| 0 <= k < lv.len() implies !(#[trigger] lv[k]).contains(LINE_FEED) by {
                if k < old_lines.len() {
                    assert(lv[k] == old_lines[k]);
                }
            }
        }
    } else {
        assert(join_lines(lines_view(lines@)) =~= p);
    }
    assert(lines@.len() == line_count(p));
    let found = lines.len();
    if found != declared as usize {
        return Err(ToonError::CountMismatch { declared, found });
    }
    Ok(lines)
}

/// A joined payload is empty exactly when there are no lines, and otherwise
/// ends with a line feed.
pub proof fn lemma_join_lines_shape(lines: Seq<Seq<u8>>)
    ensures
        (join_lines(lines).len() == 0) == (lines.len() == 0),
        lines.len() > 0 ==> join_lines(lines).last() == LINE_FEED,
{
}

/// Distinct sequences of unbroken lines never join to the same payload.
pub proof fn lemma_join_lines_injective(a: Seq<Seq<u8>>, b: Seq<Seq<u8>>)
    requires
        lines_unbroken(a),
        lines_unbroken(b),
        join_lines(a) == join_lines(b),
    ensures
        a == b,
    decreases a.len(),
{
    lemma_join_lines_shape(a);
    lemma_join_lines_shape(b);
    if a.len() > 0 {
        let a1 = a.drop_last();
        let b1 = b.drop_last();
        let x = a.last();
        let y = b.last();
        let j = join_lines(a);
        let ja = join_lines(a1);
        let jb = join_lines(b1);
        assert(j.drop_last() =~= ja + x);
        assert(j.drop_last() =~= jb + y);
        assert(!x.contains(LINE_FEED)) by {
            assert(a[a.len() - 1] == x);
        }
        assert(!y.contains(LINE_FEED)) by {
            assert(b[b.len() - 1] == y);
        }
        let jd = j.drop_last();
        if x.len() < y.len() {
            lemma_join_lines_shape(a1);
            let k = jd.len() - x.len() - 1;
            assert(ja.len() > 0);
            assert(jd[k] == ja.last());
            assert(jd[k] == y[k - jb.len()]);
            assert(false);
        } else if y.len() < x.len() {
            lemma_join_lines_shape(b1);
            let k = jd.len() - y.len() - 1;
            assert(jb.len() > 0);
            assert(jd[k] == jb.last());
            assert(jd[k] == x[k - ja.len()]);
            assert(false);
        }
        assert(x =~= jd.subrange(ja.len() as int, jd.len() as int));
        assert(y =~= jd.subrange(jb.len() as int, jd.len() as int));
        assert(ja =~= jd.take(ja.len() as int));
        assert(jb =~= jd.take(jb.len() as int));
        assert forall|i: int| 0 <= i < a1.len() implies !(#[trigger] a1[i]).contains(LINE_FEED) by {
            assert(a1[i] == a[i]);
        }
        assert forall|i: int| 0 <= i < b1.len() implies !(#[trigger] b1[i]).contains(LINE_FEED) by {
            assert(b1[i] == b[i]);
        }
        lemma_join_lines_injective(a1, b1);
        assert(a =~= a1.push(x));
        assert(b =~= b1.push(y));
    }
}

/// A payload has only one framing into lines: whatever lines `deserialize`
/// returns for a payload are the only ones that frame it.
pub proof fn lemma_frames_payload_unique(a: Seq<Seq<u8>>, b: Seq<Seq<u8>>, payload: Seq<u8>)
    requires
        frames_payload(a, payload),
        frames_payload(b, payload),
    ensures
        a == b,
{
    lemma_join_lines_injective(a, b);
}

/// Line feeds in a concatenation are those of both parts.
pub proof fn lemma_count_line_feeds_concat(x: Seq<u8>, y: Seq<u8>)
    ensures
        count_line_feeds(x + y) == count_line_feeds(x) + count_line_feeds(y),
    decreases y.len(),
{
    if y.len() == 0 {
        assert(x + y =~= x);
    } else {
        assert((x + y).drop_last() =~= x + y.drop_last());
        lemma_count_line_feeds_concat(x, y.drop_last());
    }
}

/// A sequence without line feeds counts none.
pub proof fn lemma_count_line_feeds_none(x: Seq<u8>)
    requires
        !x.contains(LINE_FEED),
    ensures
        count_line_feeds(x) == 0,
    decreases x.len(),
{
    if x.len() > 0 {
        assert(!x.drop_last().contains(LINE_FEED)) by {
            if x.drop_last().contains(LINE_FEED) {
                let k = choose|k: int| 0 <= k < x.drop_last().len() && x.drop_last()[k] == LINE_FEED;
                assert(x[k] == LINE_FEED);
            }
        }
        lemma_count_line_feeds_none(x.drop_last());
        assert(x[x.len() - 1] != LINE_FEED);
    }
}

/// Joining unbroken lines gives a payload with one line feed per line, and
/// joining UTF-8 lines gives a UTF-8 payload.
pub proof fn lemma_join_lines_counts(lines: Seq<Seq<u8>>)
    requires
        lines_unbroken(lines),
    ensures
        count_line_feeds(join_lines(lines)) == lines.len(),
        line_count(join_lines(lines)) == lines.len(),
        (forall|i: int| 0 <= i < lines.len() ==> valid_utf8(#[trigger] lines[i])) ==> valid_utf8(join_lines(lines)),
    decreases lines.len(),
{
    lemma_join_lines_shape(lines);
    if lines.len() > 0 {
        let rest = lines.drop_last();
        let x = lines.last();
        assert forall|i: int| 0 <= i < rest.len() implies !(#[trigger] rest[i]).contains(LINE_FEED) by {
            assert(rest[i] == lines[i]);
        }
        lemma_join_lines_counts(rest);
        assert(!x.contains(LINE_FEED)) by {
            assert(lines[lines.len() - 1] == x);
        }
        lemma_count_line_feeds_none(x);
        lemma_count_line_feeds_concat(join_lines(rest), x);
        lemma_count_line_feeds_concat(join_lines(rest) + x, seq![LINE_FEED]);
        assert(seq![LINE_FEED].drop_last() =~= Seq::<u8>::empty());
        assert(count_line_feeds(Seq::<u8>::empty()) == 0);
        assert(seq![LINE_FEED].last() == LINE_FEED);
        assert(count_line_feeds(seq![LINE_FEED]) == 1);
        assert(join_lines(lines) == join_lines(rest) + x + seq![LINE_FEED]);
        if forall|i: int| 0 <= i < lines.len() ==> valid_utf8(#[trigger] lines[i]) {
            assert forall|i: int| 0 <= i < rest.len() implies valid_utf8(#[trigger] rest[i]) by {
                assert(rest[i] == lines[i]);
            }
            assert(valid_utf8(x)) by {
                assert(lines[lines.len() - 1] == x);
            }
            let nl = seq![LINE_FEED];
            lemma_line_feed_utf8();
            valid_utf8_concat(join_lines(rest), x);
            valid_utf8_concat(join_lines(rest) + x, nl);
        }
    }
}

/// A lone line feed is valid UTF-8.
pub proof fn lemma_line_feed_utf8()
    ensures
        valid_utf8(seq![LINE_FEED]),
{
    let nl = seq![LINE_FEED];
    assert((10u8 & 0x7Fu8) == 10u8) by (bit_vector);
    assert(nl[0] == 10u8);
    assert(vstd::utf8::is_leading_byte_width_1(nl[0]));
    assert(vstd::utf8::leading_bits_width_1(nl[0]) == 10u32);
    assert(vstd::utf8::decode_first_codepoint(nl) == 10u32);
    assert(vstd::utf8::valid_first_scalar(nl));
    assert(vstd::utf8::pop_first_scalar(nl) =~= Seq::<u8>::empty());
    assert(valid_utf8(Seq::<u8>::empty()));
}

/// The 4 little-endian bytes of a count give the count back.
pub proof fn lemma_le_u32_round_trip(n: u32)
    ensures
        le_u32_value(le_u32_bytes(n)[0], le_u32_bytes(n)[1], le_u32_bytes(n)[2], le_u32_bytes(n)[3]) == n,
{
    let b = le_u32_bytes(n);
    assert(b[0] == (n % 256) as u8);
    assert(b[1] == ((n / 256) % 256) as u8);
    assert(b[2] == ((n / 65536) % 256) as u8);
    assert(b[3] == (n / 16777216) as u8);
    assert((n % 256) as u8 + 256 * (((n / 256) % 256) as u8) + 65536 * (((n / 65536) % 256) as u8)
        + 16777216 * ((n / 16777216) as u8) == n) by (bit_vector);
}

/// Round trip: a buffer written by `serialize` from unbroken UTF-8 lines is
/// accepted by `deserialize`, declares as many records as there are lines, and
/// its payload is framed by exactly those lines.
pub proof fn lemma_toon_round_trip(lines: Seq<Seq<u8>>)
    requires
        lines.len() <= u32::MAX,
        lines_unbroken(lines),
        forall|i: int| 0 <= i < lines.len() ==> valid_utf8(#[trigger] lines[i]),
    ensures
        serialize_result(lines) == Ok::<Seq<u8>, ToonError>(toon_frame(lines)),
        decode_error(toon_frame(lines)) is None,
        frames_payload(lines, payload_of(toon_frame(lines))),
        declared_count(toon_frame(lines)) == lines.len(),
        forall|decoded: Seq<Seq<u8>>| frames_payload(decoded, payload_of(toon_frame(lines))) ==> decoded == lines,
{
    let f = toon_frame(lines);
    let header = toon_magic() + seq![TOON_VERSION] + le_u32_bytes(lines.len() as u32);
    assert(header.len() == 9);
    assert(payload_of(f) =~= join_lines(lines));
    assert(f.take(4) =~= toon_magic());
    assert(f[4] == TOON_VERSION);
    lemma_le_u32_round_trip(lines.len() as u32);
    assert(f[5] == le_u32_bytes(lines.len() as u32)[0]);
    assert(f[6] == le_u32_bytes(lines.len() as u32)[1]);
    assert(f[7] == le_u32_bytes(lines.len() as u32)[2]);
    assert(f[8] == le_u32_bytes(lines.len() as u32)[3]);
    lemma_join_lines_counts(lines);
    lemma_join_lines_shape(lines);
    assert forall|decoded: Seq<Seq<u8>>| frames_payload(decoded, payload_of(f)) implies decoded == lines by {
        lemma_frames_payload_unique(decoded, lines, payload_of(f));
    }
}

/// A buffer is accepted only when it has the full 9-byte header, starts with
/// the bytes `T`, `O`, `O`, `N`, carries version byte 1, and its payload is
/// UTF-8 whose number of lines is the declared little-endian count.
pub proof fn lemma_decode_accepts_only_v1(bytes: Seq<u8>)
    requires
        decode_error(bytes) is None,
    ensures
        bytes.len() >= 9,
        bytes[0] == 84u8 && bytes[1] == 79u8 && bytes[2] == 79u8 && bytes[3] == 78u8,
        bytes[4] == 1u8,
        valid_utf8(bytes.skip(9)),
        line_count(bytes.skip(9)) == bytes[5] + 256 * bytes[6] + 65536 * bytes[7] + 16777216 * bytes[8],
{
    assert(bytes.take(4)[0] == bytes[0] && bytes.take(4)[1] == bytes[1]);
    assert(bytes.take(4)[2] == bytes[2] && bytes.take(4)[3] == bytes[3]);
    assert(payload_of(bytes) =~= bytes.skip(9));
}

/// A buffer with a complete header and the `TOON` magic but any version byte
/// other than 1 is refused as an unsupported version, naming that byte.
pub proof fn lemma_decode_rejects_other_versions(bytes: Seq<u8>)
    requires
        bytes.len() >= 9,
        bytes[0] == 84u8 && bytes[1] == 79u8 && bytes[2] == 79u8 && bytes[3] == 78u8,
        bytes[4] != 1u8,
    ensures
        decode_error(bytes) == Some(ToonError::UnsupportedVersion(bytes[4])),
{
    assert(bytes.take(4) =~= seq![84u8, 79u8, 79u8, 78u8]);
}

/// A buffer shorter than 9 bytes is refused as too short, and one whose first
/// four bytes are not `T`, `O`, `O`, `N` as having bad magic.
pub proof fn lemma_decode_rejects_bad_header(bytes: Seq<u8>)
    ensures
        bytes.len() < 9 ==> decode_error(bytes) == Some(ToonError::TooShort),
        bytes.len() >= 9 && !(bytes[0] == 84u8 && bytes[1] == 79u8 && bytes[2] == 79u8 && bytes[3] == 78u8)
            ==> decode_error(bytes) == Some(ToonError::BadMagic),
{
    if bytes.len() >= 9 && bytes.take(4) == toon_magic() {
        assert(bytes.take(4)[0] == bytes[0] && bytes.take(4)[1] == bytes[1]);
        assert(bytes.take(4)[2] == bytes[2] && bytes.take(4)[3] == bytes[3]);
    }
}

/// A written buffer is `T`, `O`, `O`, `N`, the version byte 1, the number of
/// lines in 4 little-endian bytes, then every line in order, each followed by
/// a line feed, and nothing else.
pub proof fn lemma_serialize_layout(lines: Seq<Seq<u8>>, bytes: Seq<u8>)
    requires
        serialize_result(lines) == Ok::<Seq<u8>, ToonError>(bytes),
    ensures
        bytes.len() == 9 + item_offset(lines, lines.len() as int),
        bytes[0] == 84u8 && bytes[1] == 79u8 && bytes[2] == 79u8 && bytes[3] == 78u8,
        bytes[4] == 1u8,
        bytes[5] + 256 * bytes[6] + 65536 * bytes[7] + 16777216 * bytes[8] == lines.len(),
        forall|i: int|
            0 <= i < lines.len() ==> bytes.subrange(9 + item_offset(lines, i), 9 + item_offset(lines, i) + lines[i].len())
                == #[trigger] lines[i],
        forall|i: int|
            0 <= i < lines.len() ==> bytes[9 + item_offset(lines, i) + (#[trigger] lines[i]).len()] == LINE_FEED,
{
    let n = lines.len();
    assert(n <= u32::MAX);
    lemma_le_u32_round_trip(n as u32);
    let header = toon_magic() + seq![TOON_VERSION] + le_u32_bytes(n as u32);
    assert(bytes == header + join_lines(lines));
    assert(bytes.skip(9) =~= join_lines(lines));
    lemma_join_lines_terminated(lines);
    assert forall|i: int| 0 <= i < lines.len() implies bytes.subrange(
        9 + item_offset(lines, i),
        9 + item_offset(lines, i) + lines[i].len(),
    ) == #[trigger] lines[i] by {
        let p = join_lines(lines);
        lemma_item_offset_nonneg(lines, i);
        lemma_item_offset_grows(lines, i, lines.len() as int);
        let a = item_offset(lines, i);
        let b = a + lines[i].len();
        assert(p.subrange(a, b) == lines[i]);
        assert(bytes.subrange(9 + a, 9 + b) =~= bytes.skip(9).subrange(a, b));
    }
    assert forall|i: int| 0 <= i < lines.len() implies bytes[9 + item_offset(lines, i) + (#[trigger] lines[i]).len()]
        == LINE_FEED by {
        let p = join_lines(lines);
        lemma_item_offset_nonneg(lines, i);
        lemma_item_offset_grows(lines, i, lines.len() as int);
        let x = item_offset(lines, i) + lines[i].len();
        assert(p[x] == LINE_FEED);
        assert(bytes.skip(9)[x] == bytes[9 + x]);
    }
}

/// The payload of joined lines holds every line at its offset, each followed
/// by a line feed.
pub proof fn lemma_join_lines_terminated(lines: Seq<Seq<u8>>)
    ensures
        join_lines(lines).len() == item_offset(lines, lines.len() as int),
        forall|i: int|
            0 <= i < lines.len() ==> join_lines(lines).subrange(item_offset(lines, i), item_offset(lines, i) + lines[i].len())
                == #[trigger] lines[i],
        forall|i: int|
            0 <= i < lines.len() ==> join_lines(lines)[item_offset(lines, i) + (#[trigger] lines[i]).len()] == LINE_FEED,
    decreases lines.len(),
{
    let n = lines.len() as int;
    if n > 0 {
        let rest = lines.drop_last();
        lemma_join_lines_terminated(rest);
        let jr = join_lines(rest);
        let j = join_lines(lines);
        assert(rest =~= lines.take(n - 1));
        lemma_item_offset_take(lines, n - 1, n - 1);
        assert(j == jr + lines.last() + seq![LINE_FEED]);
        assert forall|i: int| 0 <= i < n implies j.subrange(item_offset(lines, i), item_offset(lines, i) + lines[i].len())
            == #[trigger] lines[i] by {
            lemma_item_offset_take(lines, n - 1, i);
            lemma_item_offset_nonneg(lines, i);
            if i < n - 1 {
                lemma_item_offset_grows(rest, i, n - 1);
                assert(rest[i] == lines[i]);
                assert(jr.subrange(item_offset(rest, i), item_offset(rest, i) + rest[i].len()) == rest[i]);
                assert(j.subrange(item_offset(lines, i), item_offset(lines, i) + lines[i].len()) =~= jr.subrange(
                    item_offset(rest, i),
                    item_offset(rest, i) + rest[i].len(),
                ));
            } else {
                assert(j.subrange(item_offset(lines, i), item_offset(lines, i) + lines[i].len()) =~= lines.last());
            }
        }
        assert forall|i: int| 0 <= i < n implies j[item_offset(lines, i) + (#[trigger] lines[i]).len()] == LINE_FEED by {
            lemma_item_offset_take(lines, n - 1, i);
            lemma_item_offset_nonneg(lines, i);
            if i < n - 1 {
                lemma_item_offset_grows(rest, i, n - 1);
                assert(rest[i] == lines[i]);
                assert(jr[item_offset(rest, i) + rest[i].len()] == LINE_FEED);
            }
        }
    }
}

/// The lines that `deserialize` returns sit in the payload one after another,
/// in order, each followed by a line feed (the last line's line feed may be
/// missing from the buffer), none holding a line feed, and there are as many
/// as the header declares.
pub proof fn lemma_decoded_lines_layout(bytes: Seq<u8>, lines: Seq<Seq<u8>>)
    requires
        decode_error(bytes) is None,
        frames_payload(lines, payload_of(bytes)),
    ensures
        ({
            let p = bytes.skip(9);
            let q = if p.len() == 0 || p.last() == LINE_FEED { p } else { p.push(LINE_FEED) };
            &&& q.len() == item_offset(lines, lines.len() as int)
            &&& forall|i: int|
                0 <= i < lines.len() ==> q.subrange(item_offset(lines, i), item_offset(lines, i) + lines[i].len())
                    == #[trigger] lines[i]
            &&& forall|i: int|
                0 <= i < lines.len() ==> q[item_offset(lines, i) + (#[trigger] lines[i]).len()] == LINE_FEED
        }),
        forall|i: int, j: int| 0 <= i < lines.len() && 0 <= j < lines[i].len() ==> #[trigger] lines[i][j] != LINE_FEED,
        lines.len() == bytes[5] + 256 * bytes[6] + 65536 * bytes[7] + 16777216 * bytes[8],
{
    assert(payload_of(bytes) =~= bytes.skip(9));
    lemma_join_lines_terminated(lines);
    lemma_join_lines_counts(lines);
    let p = payload_of(bytes);
    if !ends_with_line_feed(p) {
        assert(p.push(LINE_FEED).drop_last() =~= p);
        assert(count_line_feeds(p.push(LINE_FEED)) == count_line_feeds(p) + 1);
    }
    assert(line_count(p) == lines.len());
    assert forall|i: int, j: int| 0 <= i < lines.len() && 0 <= j < lines[i].len() implies #[trigger] lines[i][j]
        != LINE_FEED by {
        assert(!lines[i].contains(LINE_FEED));
    }
}

/// Writing refuses more records than a 32-bit count can declare, then any
/// record line holding a line feed (byte 10), and succeeds otherwise.
pub proof fn lemma_serialize_refusals(lines: Seq<Seq<u8>>)
    ensures
        lines.len() > 0xffff_ffff ==> serialize_result(lines) == Err::<Seq<u8>, ToonError>(ToonError::TooManyRecords),
        lines.len() <= 0xffff_ffff && (exists|i: int, j: int|
            0 <= i < lines.len() && 0 <= j < lines[i].len() && #[trigger] lines[i][j] == 10u8) ==> serialize_result(
            lines,
        ) == Err::<Seq<u8>, ToonError>(ToonError::LineBreakInRecord),
        lines.len() <= 0xffff_ffff && (forall|i: int, j: int|
            0 <= i < lines.len() && 0 <= j < lines[i].len() ==> #[trigger] lines[i][j] != 10u8) ==> serialize_result(
            lines,
        ) is Ok,
{
    if lines.len() <= 0xffff_ffff {
        if exists|i: int, j: int| 0 <= i < lines.len() && 0 <= j < lines[i].len() && #[trigger] lines[i][j] == 10u8 {
            let (i, j) = choose|i: int, j: int|
                0 <= i < lines.len() && 0 <= j < lines[i].len() && #[trigger] lines[i][j] == 10u8;
            assert(lines[i].contains(LINE_FEED));
        } else {
            assert forall|i: int| 0 <= i < lines.len() implies !(#[trigger] lines[i]).contains(LINE_FEED) by {
                if lines[i].contains(LINE_FEED) {
                    let j = choose|j: int| 0 <= j < lines[i].len() && lines[i][j] == LINE_FEED;
                    assert(lines[i][j] == 10u8);
                }
            }
        }
    }
}

} // verus!
