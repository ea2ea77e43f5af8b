//! Records of the update sequence number journal, from bytes.
//!
//! Every length is held against the bytes that are left before it is used. The
//! records of major versions 2 and 3 are read in full; those of version 4 have
//! no name, time or attributes.
use vstd::prelude::*;
use vstd::slice::*;
use vstd::string::*;

use crate::bytes;
use crate::text;

verus! {

/// The size of a version 2 record without its name.
pub const V2_HEADER_SIZE: usize = 60;

/// The size of a version 3 record without its name.
pub const V3_HEADER_SIZE: usize = 76;

/// The size of a version 4 record.
pub const V4_HEADER_SIZE: usize = 64;

/// A record in mathematical terms.
#[verifier::ext_equal]
pub struct UsnView {
    pub frn: nat,
    pub parent_frn: nat,
    pub frn_bytes: Seq<u8>,
    pub timestamp: i64,
    pub file_attributes: u32,
    pub name: Seq<char>,
    pub major_version: u16,
}

/// A record of the journal.
#[derive(Clone, Debug, PartialEq, Eq)]
pub struct UsnRecord {
    /// The file reference number; those of version 2 have 64 bits.
    pub frn: u128,
    /// The file reference number of the parent directory.
    pub parent_frn: u128,
    /// The bytes of the file reference number.
    pub frn_bytes: [u8; 16],
    /// The time of the record, 0 in version 4.
    pub timestamp: i64,
    /// The attributes of the file, 0 in version 4.
    pub file_attributes: u32,
    /// The name of the file, empty in version 4.
    pub name: String,
    /// The major version of the record.
    pub major_version: u16,
}

impl View for UsnRecord {
    type V = UsnView;

    open spec fn view(&self) -> UsnView {
        UsnView {
            frn: self.frn as nat,
            parent_frn: self.parent_frn as nat,
            frn_bytes: self.frn_bytes@,
            timestamp: self.timestamp,
            file_attributes: self.file_attributes,
            name: self.name@,
            major_version: self.major_version,
        }
    }
}

/// Why bytes are no record. Records are chained by their lengths, so whatever
/// follows cannot be read either.
#[derive(Clone, Debug, PartialEq, Eq)]
pub enum UsnParseError {
    /// The record is longer than what is left.
    Truncated { record_len: usize, remaining: usize },
    /// The record is shorter than any record.
    LengthTooSmall(u32),
    /// The major version is not known.
    UnsupportedVersion(u16),
    /// The name is not inside the record.
    NameOutOfBounds,
}

/// An error in words.
pub open spec fn described(e: UsnParseError) -> Seq<char> {
    match e {
        UsnParseError::Truncated { record_len, remaining } => "record length "@ + text::dec(
            record_len as nat,
        ) + " exceeds remaining buffer ("@ + text::dec(remaining as nat) + " bytes)"@,
        UsnParseError::LengthTooSmall(n) => "record length too small: "@ + text::dec(n as nat),
        UsnParseError::UnsupportedVersion(v) => "unsupported USN record major version "@
            + text::dec(v as nat),
        UsnParseError::NameOutOfBounds => "file name field out of bounds"@,
    }
}

impl UsnParseError {
    /// The error in words.
    pub fn describe(&self) -> (s: String)
        ensures
            s@ == described(*self),
    {
        let mut s = String::new();
        match self {
            UsnParseError::Truncated { record_len, remaining } => {
                s.append("record length ");
                text::push_decimal(&mut s, *record_len as u64);
                s.append(" exceeds remaining buffer (");
                text::push_decimal(&mut s, *remaining as u64);
                s.append(" bytes)");
            },
            UsnParseError::LengthTooSmall(n) => {
                s.append("record length too small: ");
                text::push_decimal(&mut s, *n as u64);
            },
            UsnParseError::UnsupportedVersion(v) => {
                s.append("unsupported USN record major version ");
                text::push_decimal(&mut s, *v as u64);
            },
            UsnParseError::NameOutOfBounds => {
                s.append("file name field out of bounds");
            },
        }
        proof {
            assert(s@ =~= described(*self));
        }
        s
    }
}

/// The UTF-16 units in bytes; a byte left over at the end does not count.
pub open spec fn units(b: Seq<u8>) -> Seq<u16> {
    Seq::new(b.len() / 2, |i: int| (b[2 * i] + 256 * b[2 * i + 1]) as u16)
}

/// What `String::from_utf16_lossy` makes of UTF-16 units.
pub uninterp spec fn lossy_utf16(units: Seq<u16>) -> Seq<char>;

/// `String::from_utf16_lossy`: the text that the units encode, with replacement
/// characters for what is not UTF-16. Units below the surrogates stand for
/// themselves.
#[verifier::external_body]
fn from_utf16(units: &Vec<u16>) -> (s: String)
    ensures
        s@ == lossy_utf16(units@),
        (forall|i: int| 0 <= i < units@.len() ==> (#[trigger] units@[i]) < 0xd800) ==> s@
            == Seq::new(units@.len(), |i: int| units@[i] as char),
{
    String::from_utf16_lossy(units)
}

/// The number in the bytes from `off` on.
pub open spec fn num(b: Seq<u8>, off: int, width: int) -> nat {
    bytes::unle(b.subrange(off, off + width))
}

/// The name of a record, whose length and offset stand at these places.
pub open spec fn name_at(rec: Seq<u8>, header: int, len_off: int, off_off: int) -> Option<
    Seq<char>,
> {
    let len = num(rec, len_off, 2);
    let off = num(rec, off_off, 2);
    if off < header || off + len > rec.len() {
        None
    } else {
        Some(lossy_utf16(units(rec.subrange(off as int, (off + len) as int))))
    }
}

/// The record in bytes of exactly its length.
pub open spec fn record_in(rec: Seq<u8>) -> Result<UsnView, UsnParseError> {
    let major = num(rec, 4, 2);
    if major == 2 {
        if rec.len() < V2_HEADER_SIZE {
            Err(UsnParseError::LengthTooSmall(rec.len() as u32))
        } else {
            match name_at(rec, V2_HEADER_SIZE as int, 56, 58) {
                None => Err(UsnParseError::NameOutOfBounds),
                Some(name) => Ok(
                    UsnView {
                        frn: num(rec, 8, 8),
                        parent_frn: num(rec, 16, 8),
                        frn_bytes: rec.subrange(8, 16) + Seq::new(8, |i: int| 0u8),
                        timestamp: bytes::signed_of(num(rec, 32, 8)),
                        file_attributes: num(rec, 52, 4) as u32,
                        name,
                        major_version: 2,
                    },
                ),
            }
        }
    } else if major == 3 {
        if rec.len() < V3_HEADER_SIZE {
            Err(UsnParseError::LengthTooSmall(rec.len() as u32))
        } else {
            match name_at(rec, V3_HEADER_SIZE as int, 72, 74) {
                None => Err(UsnParseError::NameOutOfBounds),
                Some(name) => Ok(
                    UsnView {
                        frn: num(rec, 8, 16),
                        parent_frn: num(rec, 24, 16),
                        frn_bytes: rec.subrange(8, 24),
                        timestamp: bytes::signed_of(num(rec, 48, 8)),
                        file_attributes: num(rec, 68, 4) as u32,
                        name,
                        major_version: 3,
                    },
                ),
            }
        }
    } else if major == 4 {
        if rec.len() < V4_HEADER_SIZE {
            Err(UsnParseError::LengthTooSmall(rec.len() as u32))
        } else {
            Ok(
                UsnView {
                    frn: num(rec, 8, 16),
                    parent_frn: num(rec, 24, 16),
                    frn_bytes: rec.subrange(8, 24),
                    timestamp: 0,
                    file_attributes: 0,
                    name: Seq::empty(),
                    major_version: 4,
                },
            )
        }
    } else {
        Err(UsnParseError::UnsupportedVersion(major as u16))
    }
}

/// The record at the start of bytes and its length; nothing if they are zero
/// padding.
pub open spec fn first_record(b: Seq<u8>) -> Result<Option<(UsnView, nat)>, UsnParseError> {
    if b.len() < 4 {
        if forall|i: int| 0 <= i < b.len() ==> #[trigger] b[i] == 0 {
            Ok(None)
        } else {
            Err(UsnParseError::Truncated { record_len: 4, remaining: b.len() as usize })
        }
    } else {
        let len = num(b, 0, 4);
        if len == 0 {
            Ok(None)
        } else if len > b.len() {
            Err(UsnParseError::Truncated { record_len: len as usize, remaining: b.len() as usize })
        } else if len < 8 {
            Err(UsnParseError::LengthTooSmall(len as u32))
        } else {
            match record_in(b.take(len as int)) {
                Ok(r) => Ok(Some((r, len))),
                Err(e) => Err(e),
            }
        }
    }
}

/// The records in bytes, and how many were dropped because they could not be
/// read: the first such record ends the bytes.
pub open spec fn records(b: Seq<u8>) -> (Seq<UsnView>, nat)
    decreases b.len(),
{
    match first_record(b) {
        Ok(None) => (Seq::empty(), 0),
        Ok(Some((r, len))) => if 0 < len <= b.len() {
            let rest = records(b.skip(len as int));
            (seq![r] + rest.0, rest.1)
        } else {
            (Seq::empty(), 0)
        },
        Err(_) => (Seq::empty(), 1),
    }
}

/// Numbers of two halves.
proof fn lemma_halves(s: Seq<u8>)
    requires
        s.len() == 16,
    ensures
        bytes::unle(s) == bytes::unle(s.take(8)) + 0x1_0000_0000_0000_0000 * bytes::unle(s.skip(8)),
{
    bytes::lemma_byte_ranges();
    lemma_concat(s.take(8), s.skip(8));
    assert(s =~= s.take(8) + s.skip(8));
}

proof fn lemma_concat(a: Seq<u8>, b: Seq<u8>)
    ensures
        bytes::unle(a + b) == bytes::unle(a) + bytes::byte_range(a.len()) * bytes::unle(b),
    decreases a.len(),
{
    if a.len() == 0 {
        assert(a + b =~= b);
        assert(bytes::byte_range(0) * bytes::unle(b) == bytes::unle(b)) by (nonlinear_arith)
            requires
                bytes::byte_range(0) == 1,
        ;
    } else {
        let rest = a.drop_first();
        lemma_concat(rest, b);
        assert((a + b).drop_first() =~= rest + b);
        assert((a + b)[0] == a[0]);
        let r = bytes::byte_range(rest.len());
        let n = bytes::unle(b);
        assert(256 * (r * n) == (256 * r) * n) by (nonlinear_arith);
    }
}

/// A number of two or four bytes.
fn short_at(b: &[u8], off: usize, width: usize) -> (n: u64)
    requires
        width <= 8,
        off + width <= b@.len(),
    ensures
        n == num(b@, off as int, width as int),
        n < bytes::byte_range(width as nat),
{
    let n: u64 = bytes::read_le(b, off, width);
    proof {
        bytes::lemma_le_unle(b@.subrange(off as int, off + width));
    }
    n
}

/// A number of sixteen bytes.
fn long_at(b: &[u8], off: usize) -> (n: u128)
    requires
        off + 16 <= b@.len(),
    ensures
        n == num(b@, off as int, 16),
{
    let _ = b.len();
    let low: u64 = bytes::read_le(b, off, 8);
    let high: u64 = bytes::read_le(b, off + 8, 8);
    proof {
        let s = b@.subrange(off as int, off + 16);
        lemma_halves(s);
        assert(s.take(8) =~= b@.subrange(off as int, off + 8));
        assert(s.skip(8) =~= b@.subrange(off + 8, off + 16));
    }
    low as u128 + 0x1_0000_0000_0000_0000 * (high as u128)
}

fn decode_name(b: &[u8]) -> (s: String)
    ensures
        s@ == lossy_utf16(units(b@)),
{
    let mut list: Vec<u16> = Vec::new();
    let n: usize = b.len() / 2;
    for i in 0..n
        invariant
            n == b@.len() / 2,
            b@.len() <= usize::MAX,
            list@.len() == i,
            forall|j: int| 0 <= j < i ==> (#[trigger] list@[j]) == units(b@)[j],
    {
        list.push(b[2 * i] as u16 + 256 * (b[2 * i + 1] as u16));
    }
    proof {
        assert(list@ =~= units(b@));
    }
    from_utf16(&list)
}

/// The name of a record, whose length and offset stand at these places.
fn name_field(rec: &[u8], header: usize, len_off: usize, off_off: usize) -> (r: Option<String>)
    requires
        len_off + 2 <= rec@.len(),
        off_off + 2 <= rec@.len(),
    ensures
        match r {
            Some(s) => name_at(rec@, header as int, len_off as int, off_off as int) == Some(s@),
            None => name_at(rec@, header as int, len_off as int, off_off as int) is None,
        },
{
    proof {
        bytes::lemma_byte_ranges();
    }
    let len: usize = short_at(rec, len_off, 2) as usize;
    let off: usize = short_at(rec, off_off, 2) as usize;
    if off < header || off + len > rec.len() {
        return None;
    }
    Some(decode_name(slice_subrange(rec, off, off + len)))
}

/// Sixteen bytes of a record.
fn sixteen(rec: &[u8], off: usize) -> (r: [u8; 16])
    requires
        off + 16 <= rec@.len(),
    ensures
        r@ == rec@.subrange(off as int, off + 16),
{
    let r: [u8; 16] = [
        rec[off],
        rec[off + 1],
        rec[off + 2],
        rec[off + 3],
        rec[off + 4],
        rec[off + 5],
        rec[off + 6],
        rec[off + 7],
        rec[off + 8],
        rec[off + 9],
        rec[off + 10],
        rec[off + 11],
        rec[off + 12],
        rec[off + 13],
        rec[off + 14],
        rec[off + 15],
    ];
    proof {
        assert(r@ =~= rec@.subrange(off as int, off + 16));
    }
    r
}

/// Eight bytes of a record and eight zeros.
fn eight(rec: &[u8], off: usize) -> (r: [u8; 16])
    requires
        off + 8 <= rec@.len(),
    ensures
        r@ == rec@.subrange(off as int, off + 8) + Seq::new(8, |i: int| 0u8),
{
    let r: [u8; 16] = [
        rec[off],
        rec[off + 1],
        rec[off + 2],
        rec[off + 3],
        rec[off + 4],
        rec[off + 5],
        rec[off + 6],
        rec[off + 7],
        0,
        0,
        0,
        0,
        0,
        0,
        0,
        0,
    ];
    proof {
        assert(r@ =~= rec@.subrange(off as int, off + 8) + Seq::new(8, |i: int| 0u8));
    }
    r
}

/// The record in bytes of exactly its length.
fn parse_record(rec: &[u8]) -> (r: Result<UsnRecord, UsnParseError>)
    requires
        8 <= rec@.len() <= u32::MAX,
    ensures
        match r {
            Ok(u) => record_in(rec@) == Ok::<UsnView, UsnParseError>(u@),
            Err(e) => record_in(rec@) == Err::<UsnView, UsnParseError>(e),
        },
{
    proof {
        bytes::lemma_byte_ranges();
    }
    let len: usize = rec.len();
    let major: u16 = short_at(rec, 4, 2) as u16;
    if major == 2 {
        if len < V2_HEADER_SIZE {
            return Err(UsnParseError::LengthTooSmall(len as u32));
        }
        match name_field(rec, V2_HEADER_SIZE, 56, 58) {
            None => Err(UsnParseError::NameOutOfBounds),
            Some(name) => Ok(
                UsnRecord {
                    frn: short_at(rec, 8, 8) as u128,
                    parent_frn: short_at(rec, 16, 8) as u128,
                    frn_bytes: eight(rec, 8),
                    timestamp: bytes::to_signed(short_at(rec, 32, 8)),
                    file_attributes: short_at(rec, 52, 4) as u32,
                    name,
                    major_version: 2,
                },
            ),
        }
    } else if major == 3 {
        if len < V3_HEADER_SIZE {
            return Err(UsnParseError::LengthTooSmall(len as u32));
        }
        match name_field(rec, V3_HEADER_SIZE, 72, 74) {
            None => Err(UsnParseError::NameOutOfBounds),
            Some(name) => Ok(
                UsnRecord {
                    frn: long_at(rec, 8),
                    parent_frn: long_at(rec, 24),
                    frn_bytes: sixteen(rec, 8),
                    timestamp: bytes::to_signed(short_at(rec, 48, 8)),
                    file_attributes: short_at(rec, 68, 4) as u32,
                    name,
                    major_version: 3,
                },
            ),
        }
    } else if major == 4 {
        if len < V4_HEADER_SIZE {
            return Err(UsnParseError::LengthTooSmall(len as u32));
        }
        let name: String = String::new();
        proof {
            assert(name@ =~= Seq::empty());
        }
        Ok(
            UsnRecord {
                frn: long_at(rec, 8),
                parent_frn: long_at(rec, 24),
                frn_bytes: sixteen(rec, 8),
                timestamp: 0,
                file_attributes: 0,
                name,
                major_version: 4,
            },
        )
    } else {
        Err(UsnParseError::UnsupportedVersion(major))
    }
}

/// A parsed record in mathematical terms.
pub open spec fn parsed(r: Result<Option<(UsnRecord, usize)>, UsnParseError>) -> Result<
    Option<(UsnView, nat)>,
    UsnParseError,
> {
    match r {
        Ok(Some((u, n))) => Ok(Some((u@, n as nat))),
        Ok(None) => Ok(None),
        Err(e) => Err(e),
    }
}

/// The record at the start of `buf` and its length; nothing if `buf` is zero
/// padding.
pub fn parse_one(buf: &[u8]) -> (r: Result<Option<(UsnRecord, usize)>, UsnParseError>)
    ensures
        parsed(r) == first_record(buf@),
{
    let n: usize = buf.len();
    if n < 4 {
        for i in 0..n
            invariant
                n == buf@.len(),
                n < 4,
                forall|j: int| 0 <= j < i ==> #[trigger] buf@[j] == 0,
        {
            if buf[i] != 0 {
                return Err(UsnParseError::Truncated { record_len: 4, remaining: n });
            }
        }
        return Ok(None);
    }
    proof {
        bytes::lemma_byte_ranges();
    }
    let len: usize = short_at(buf, 0, 4) as usize;
    if len == 0 {
        return Ok(None);
    }
    if len > n {
        return Err(UsnParseError::Truncated { record_len: len, remaining: n });
    }
    if len < 8 {
        return Err(UsnParseError::LengthTooSmall(len as u32));
    }
    let rec = slice_subrange(buf, 0, len);
    proof {
        assert(rec@ =~= buf@.take(len as int));
    }
    match parse_record(rec) {
        Ok(u) => Ok(Some((u, len))),
        Err(e) => Err(e),
    }
}

/// Records in mathematical terms.
pub open spec fn usn_views(v: Seq<UsnRecord>) -> Seq<UsnView> {
    Seq::new(v.len(), |i: int| v[i]@)
}

/// The records of a buffer whose first eight bytes tell where the next buffer
/// starts: that number, the records, and how many were dropped because they
/// could not be read.
pub fn parse_buffer(buf: &[u8]) -> (r: Result<(u64, Vec<UsnRecord>, usize), UsnParseError>)
    ensures
        match r {
            Ok((next, list, skipped)) => buf@.len() >= 8 && next == num(buf@, 0, 8) && (
                usn_views(list@),
                skipped as nat,
            ) == records(buf@.skip(8)),
            Err(e) => buf@.len() < 8 && e == (UsnParseError::Truncated {
                record_len: 8,
                remaining: buf@.len() as usize,
            }),
        },
{
    let n: usize = buf.len();
    if n < 8 {
        return Err(UsnParseError::Truncated { record_len: 8, remaining: n });
    }
    let next: u64 = short_at(buf, 0, 8);
    let mut list: Vec<UsnRecord> = Vec::new();
    let mut at: usize = 8;
    let ghost goal = records(buf@.skip(8));
    proof {
        assert(usn_views(list@) =~= Seq::empty());
        assert(goal.0 =~= usn_views(list@) + goal.0);
    }
    loop
        invariant
            8 <= at <= n,
            n == buf@.len(),
            next == num(buf@, 0, 8),
            goal == records(buf@.skip(8)),
            goal.0 == usn_views(list@) + records(buf@.skip(at as int)).0,
            goal.1 == records(buf@.skip(at as int)).1,
        decreases n - at,
    {
        let rest = slice_subrange(buf, at, n);
        proof {
            assert(rest@ =~= buf@.skip(at as int));
        }
        let ghost before = usn_views(list@);
        match parse_one(rest) {
            Ok(None) => {
                proof {
                    assert(before + Seq::<UsnView>::empty() =~= before);
                }
                return Ok((next, list, 0));
            },
            Ok(Some((record, used))) => {
                proof {
                    assert(8 <= used <= rest@.len());
                    assert(rest@.skip(used as int) =~= buf@.skip(at + used));
                }
                list.push(record);
                proof {
                    assert(usn_views(list@) =~= before.push(record@));
                    let tail = records(buf@.skip(at + used)).0;
                    assert(before + (seq![record@] + tail) =~= before.push(record@) + tail);
                }
                at = at + used;
            },
            Err(_) => {
                proof {
                    assert(before + Seq::<UsnView>::empty() =~= before);
                }
                return Ok((next, list, 1));
            },
        }
    }
}

/// Records follow one another: what stands before a record does not change how
/// it is read, and the first that cannot be read ends the list.
pub proof fn law_chain(first: Seq<u8>, rest: Seq<u8>)
    requires
        first_record(first) matches Ok(Some((_, n))) && n == first.len(),
        first.len() >= 8,
    ensures
        first_record(first) matches Ok(Some((r, _))) && records(first + rest).0 == seq![r]
            + records(rest).0,
        records(first + rest).1 == records(rest).1,
{
    let all = first + rest;
    assert(all.subrange(0, 4) =~= first.subrange(0, 4));
    assert(all.take(first.len() as int) =~= first.take(first.len() as int));
    assert(all.skip(first.len() as int) =~= rest);
}

/// Where the fields of a record of version 2 lie.
pub proof fn law_second_version(rec: Seq<u8>)
    requires
        bytes::unle(rec.subrange(4, 6)) == 2,
        record_in(rec) is Ok,
    ensures
        ({
            let u = record_in(rec)->Ok_0;
            let off = bytes::unle(rec.subrange(58, 60)) as int;
            let len = bytes::unle(rec.subrange(56, 58)) as int;
            &&& rec.len() >= 60
            &&& u.frn == bytes::unle(rec.subrange(8, 16))
            &&& u.parent_frn == bytes::unle(rec.subrange(16, 24))
            &&& u.frn_bytes == rec.subrange(8, 16) + Seq::new(8, |i: int| 0u8)
            &&& u.timestamp == bytes::signed_of(bytes::unle(rec.subrange(32, 40)))
            &&& u.file_attributes == bytes::unle(rec.subrange(52, 56)) as u32
            &&& u.name == lossy_utf16(units(rec.subrange(off, off + len)))
            &&& u.major_version == 2
        }),
{
}

/// Where the fields of a record of version 3 lie, whose references have 16 bytes.
pub proof fn law_third_version(rec: Seq<u8>)
    requires
        bytes::unle(rec.subrange(4, 6)) == 3,
        record_in(rec) is Ok,
    ensures
        ({
            let u = record_in(rec)->Ok_0;
            let off = bytes::unle(rec.subrange(74, 76)) as int;
            let len = bytes::unle(rec.subrange(72, 74)) as int;
            &&& rec.len() >= 76
            &&& u.frn == bytes::unle(rec.subrange(8, 24))
            &&& u.parent_frn == bytes::unle(rec.subrange(24, 40))
            &&& u.frn_bytes == rec.subrange(8, 24)
            &&& u.timestamp == bytes::signed_of(bytes::unle(rec.subrange(48, 56)))
            &&& u.file_attributes == bytes::unle(rec.subrange(68, 72)) as u32
            &&& u.name == lossy_utf16(units(rec.subrange(off, off + len)))
            &&& u.major_version == 3
        }),
{
}

/// A record of version 4 has references only, and any version but these three is
/// refused.
pub proof fn law_other_versions(rec: Seq<u8>)
    ensures
        bytes::unle(rec.subrange(4, 6)) == 4 && record_in(rec) is Ok ==> {
            let u = record_in(rec)->Ok_0;
            &&& u.frn == bytes::unle(rec.subrange(8, 24))
            &&& u.parent_frn == bytes::unle(rec.subrange(24, 40))
            &&& u.name.len() == 0
            &&& u.timestamp == 0
            &&& u.file_attributes == 0
            &&& u.major_version == 4
        },
        bytes::unle(rec.subrange(4, 6)) != 2 && bytes::unle(rec.subrange(4, 6)) != 3 && bytes::unle(
            rec.subrange(4, 6),
        ) != 4 ==> record_in(rec) is Err,
{
}

/// The length that a record gives of itself is where the next one starts.
pub proof fn law_record_length(b: Seq<u8>)
    requires
        first_record(b) matches Ok(Some(_)),
    ensures
        first_record(b) matches Ok(Some((r, n))) ==> n == bytes::unle(b.subrange(0, 4)) && 8 <= n
            && n <= b.len() && record_in(b.take(n as int)) == Ok::<UsnView, UsnParseError>(r),
{
}

/// Characters are pairs of bytes, the low one first.
pub proof fn law_units(b: Seq<u8>, i: int)
    requires
        0 <= i < b.len() / 2,
    ensures
        units(b).len() == b.len() / 2,
        units(b)[i] == b[2 * i] + 256 * b[2 * i + 1],
{
}

} // verus!
