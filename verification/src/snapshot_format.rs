//! The `.rssnap` byte format.
//!
//! All integers are little-endian. A file is a header, a payload and a trailer:
//!
//! ```text
//! header   8 bytes  magic "RSSNAP\0\0"
//!          u16      format version (1)
//!          u16      header length in bytes (28 or more)
//!          u32      flags (0)
//!          u64      payload length in bytes
//!          u32      CRC-32 of the header up to here
//! payload  records, each a varint type tag, a u32 length and a body
//! trailer  u64      CRC-64 of the payload
//! ```
//!
//! The records are one meta, one filter and one zoom path record, in this
//! order, and then the nodes in pre-order, each announcing its child count.
//! Children stand in the reverse of their sibling order.

use vstd::prelude::*;

use crate::model::DataTree;
use crate::node::{NodeData, NodeFlags, NodeKind, Tag};
use crate::{bytes, model, FileTime};

verus! {

/// The only format version that is read and written.
pub const FORMAT_VERSION: u16 = 1;

/// Header length that is written.
pub const HEADER_LEN: u16 = 28;

/// Smallest header length that is read.
pub const MIN_HEADER_LEN: u16 = 28;

/// Largest header length that is read.
pub const MAX_HEADER_LEN: u16 = 4096;

/// Length of the trailer.
pub const TRAILER_LEN: usize = 8;

/// Cap on the payload length.
pub const MAX_PAYLOAD_LEN: u64 = 0x4000_0000;

/// Cap on the length of a record's body.
pub const MAX_RECORD_LEN: u32 = 0x400_0000;

/// Cap on a node name's UTF-8 length.
pub const MAX_NAME_LEN: usize = 0x1_0000;

/// Cap on the UTF-8 length of other texts.
pub const MAX_STRING_LEN: usize = 0x10_0000;

/// Cap on the number of zoom path components.
pub const MAX_ZOOM_COMPONENTS: u32 = 4096;

/// Cap on the number of open tree levels.
pub const MAX_DEPTH: usize = 512;

/// Cap on the number of nodes.
pub const MAX_NODES: u64 = 50_000_000;

/// Type tag of the meta record.
pub const TAG_META: u64 = 1;

/// Type tag of the filter record.
pub const TAG_FILTER: u64 = 2;

/// Type tag of the zoom path record.
pub const TAG_ZOOM_PATH: u64 = 3;

/// Type tag of a node record.
pub const TAG_NODE: u64 = 4;

/// What can be wrong with a snapshot.
#[allow(inconsistent_fields)]
#[derive(Debug, PartialEq, Eq)]
pub enum SnapshotError {
    /// The bytes are fewer than the smallest possible snapshot.
    TooShort { len: usize, need: usize },
    /// The bytes do not start with the magic.
    BadMagic,
    /// The format version is not supported.
    UnsupportedVersion(u16),
    /// The header length is out of range.
    BadHeaderLength(u16),
    /// The flags are not zero.
    UnsupportedFlags(u32),
    /// The header does not have the CRC-32 that is stored with it.
    HeaderCrcMismatch { stored: u32, computed: u32 },
    /// The payload is larger than the cap.
    PayloadTooLarge(u64),
    /// The payload does not have the announced length.
    PayloadLengthMismatch { announced: u64, actual: u64 },
    /// The payload does not have the CRC-64 that is stored with it.
    PayloadCrcMismatch { stored: u64, computed: u64 },
    /// A record's type tag is cut short or too long.
    MalformedVarint(usize),
    /// A record's type tag is not known.
    UnknownRecordType { offset: usize, tag: u64 },
    /// A record is longer than the cap.
    RecordTooLarge { offset: usize, len: u32, cap: u32 },
    /// A record is longer than the rest of the payload.
    RecordOverrun { offset: usize, len: u32, remaining: usize },
    /// A record ends inside a field.
    TruncatedField { record: &'static str, offset: usize, field: &'static str },
    /// A record goes on after its last field.
    TrailingBytes { record: &'static str, offset: usize, len: usize },
    /// A text is longer than its cap.
    StringTooLong { field: &'static str, len: usize, cap: usize },
    /// A text is not UTF-8.
    InvalidUtf8 { offset: usize, field: &'static str },
    /// A node kind is not known.
    InvalidNodeKind { offset: usize, kind: u8 },
    /// A tag is not known.
    InvalidTag { offset: usize, tag: u8 },
    /// The nodes are nested deeper than the cap.
    DepthCapExceeded,
    /// There are more nodes than the cap.
    NodeCountExceeded { cap: u64 },
    /// The nodes do not form one tree.
    MalformedNodeStream(&'static str),
    /// A record stands twice.
    DuplicateRecord(&'static str),
    /// A record is missing or stands in the wrong place.
    MissingRecord(&'static str),
    /// The zoom path has more components than the cap.
    ZoomTooDeep(u32),
    /// There is no root to save.
    EmptyTree,
}

/// What scan metadata holds.
#[verifier::ext_equal]
pub struct MetaView {
    pub tool_version: Seq<char>,
    pub volume_serial: u64,
    pub started: FileTime,
    pub finished: FileTime,
}

/// What a snapshot holds.
#[verifier::ext_equal]
pub struct SnapshotView {
    pub tree: Option<DataTree>,
    pub filter: Seq<char>,
    pub zoom_path: Seq<Seq<char>>,
    pub meta: MetaView,
}

/// The first bytes of every file.
pub open spec fn magic() -> Seq<u8> {
    seq![0x52u8, 0x53u8, 0x53u8, 0x4eu8, 0x41u8, 0x50u8, 0u8, 0u8]
}

pub open spec fn kind_code(kind: NodeKind) -> u8 {
    match kind {
        NodeKind::File => 0,
        NodeKind::Directory => 1,
        NodeKind::Ads => 2,
        NodeKind::FreeSpace => 3,
        NodeKind::UnknownSpace => 4,
        NodeKind::Unaccessible => 5,
    }
}

pub open spec fn tag_code(tag: Option<Tag>) -> u8 {
    match tag {
        None => 0,
        Some(Tag::Red) => 1,
        Some(Tag::Yellow) => 2,
        Some(Tag::Green) => 3,
        Some(Tag::Blue) => 4,
    }
}

/// The UTF-8 bytes of a text.
pub open spec fn utf8(s: Seq<char>) -> Seq<u8> {
    vstd::utf8::encode_utf8(s)
}

/// A number in groups of seven bits, lowest first; every byte but the last has
/// its top bit set.
pub open spec fn varint(n: nat) -> Seq<u8>
    decreases n,
{
    if n < 128 {
        seq![n as u8]
    } else {
        seq![(n % 128 + 128) as u8] + varint(n / 128)
    }
}

/// A text field: its length in four bytes, then its bytes.
pub open spec fn text_field(s: Seq<char>) -> Seq<u8> {
    bytes::le(utf8(s).len(), 4) + utf8(s)
}

/// A record.
pub open spec fn record(tag: u64, body: Seq<u8>) -> Seq<u8> {
    varint(tag as nat) + bytes::le(body.len(), 4) + body
}

pub open spec fn meta_body(m: MetaView) -> Seq<u8> {
    text_field(m.tool_version) + bytes::le(m.volume_serial as nat, 8) + bytes::le(
        bytes::bits_of(m.started) as nat,
        8,
    ) + bytes::le(bytes::bits_of(m.finished) as nat, 8)
}

/// Text fields one after another.
pub open spec fn text_fields(parts: Seq<Seq<char>>) -> Seq<u8>
    decreases parts.len(),
{
    if parts.len() == 0 {
        Seq::empty()
    } else {
        text_fields(parts.drop_last()) + text_field(parts.last())
    }
}

pub open spec fn zoom_body(parts: Seq<Seq<char>>) -> Seq<u8> {
    bytes::le(parts.len(), 4) + text_fields(parts)
}

/// The fields of a node record before its name.
pub open spec fn node_head(d: NodeData, children: nat) -> Seq<u8> {
    seq![kind_code(d.kind), tag_code(d.tag), 0u8, 0u8] + bytes::le(d.flags.0 as nat, 4)
        + bytes::le(d.logical_size as nat, 8) + bytes::le(d.allocated_size as nat, 8) + bytes::le(
        d.ads_size as nat,
        8,
    ) + bytes::le(bytes::bits_of(d.created) as nat, 8) + bytes::le(
        bytes::bits_of(d.accessed) as nat,
        8,
    ) + bytes::le(bytes::bits_of(d.modified) as nat, 8) + bytes::le(children, 4)
}

pub open spec fn node_body(d: NodeData, children: nat) -> Seq<u8> {
    node_head(d, children) + text_field(d.name)
}

/// The node records of a tree.
pub open spec fn tree_records(t: DataTree) -> Seq<u8>
    decreases t,
{
    record(TAG_NODE, node_body(t.data, t.kids.len())) + forest_records(t.kids)
}

/// The node records of siblings, the last sibling first.
pub open spec fn forest_records(ts: Seq<DataTree>) -> Seq<u8>
    decreases ts,
{
    if ts.len() == 0 {
        Seq::empty()
    } else {
        tree_records(ts.last()) + forest_records(ts.drop_last())
    }
}

/// Where the first node record stands whose body a four-byte length cannot
/// hold, if the node records of a tree start at `at`.
pub open spec fn tree_overflow(t: DataTree, at: nat) -> Option<nat>
    decreases t,
{
    let body = node_body(t.data, t.kids.len());
    if body.len() > u32::MAX {
        Some(at)
    } else {
        forest_overflow(t.kids, at + record(TAG_NODE, body).len())
    }
}

/// The same for the node records of siblings.
pub open spec fn forest_overflow(ts: Seq<DataTree>, at: nat) -> Option<nat>
    decreases ts,
{
    if ts.len() == 0 {
        None
    } else {
        match tree_overflow(ts.last(), at) {
            Some(pos) => Some(pos),
            None => forest_overflow(ts.drop_last(), at + tree_records(ts.last()).len()),
        }
    }
}

/// The records before the nodes.
pub open spec fn preamble(v: SnapshotView) -> Seq<u8> {
    record(TAG_META, meta_body(v.meta)) + record(TAG_FILTER, text_field(v.filter)) + record(
        TAG_ZOOM_PATH,
        zoom_body(v.zoom_path),
    )
}

/// The header up to its CRC-32.
pub open spec fn header(payload_len: nat) -> Seq<u8> {
    magic() + bytes::le(FORMAT_VERSION as nat, 2) + bytes::le(HEADER_LEN as nat, 2) + bytes::le(
        0,
        4,
    ) + bytes::le(payload_len, 8)
}

/// A file around a payload.
pub open spec fn framed(payload: Seq<u8>, crc32: u32, crc64: u64) -> Seq<u8> {
    header(payload.len()) + bytes::le(crc32 as nat, 4) + payload + bytes::le(crc64 as nat, 8)
}

/// The error for a record body that a four-byte length cannot hold.
pub open spec fn too_large(offset: nat) -> SnapshotError {
    SnapshotError::RecordTooLarge { offset: offset as usize, len: u32::MAX, cap: MAX_RECORD_LEN }
}

/// The payload of a snapshot, or why there is none.
pub open spec fn payload_of(v: SnapshotView) -> Result<Seq<u8>, SnapshotError> {
    let meta = record(TAG_META, meta_body(v.meta));
    let filter = record(TAG_FILTER, text_field(v.filter));
    match v.tree {
        None => Err(SnapshotError::EmptyTree),
        Some(t) => {
            if meta_body(v.meta).len() > u32::MAX {
                Err(too_large(0))
            } else if text_field(v.filter).len() > u32::MAX {
                Err(too_large(meta.len()))
            } else if v.zoom_path.len() > MAX_ZOOM_COMPONENTS {
                Err(SnapshotError::ZoomTooDeep((v.zoom_path.len() % 0x1_0000_0000) as u32))
            } else if zoom_body(v.zoom_path).len() > u32::MAX {
                Err(too_large((meta + filter).len()))
            } else {
                match tree_overflow(t, preamble(v).len()) {
                    Some(pos) => Err(too_large(pos)),
                    None => Ok(preamble(v) + tree_records(t)),
                }
            }
        },
    }
}

/// Reads a varint whose first `k` bytes have been read: the value of the rest
/// and where it ends. At most ten bytes make a varint, and the tenth holds one
/// bit.
pub open spec fn varint_at(p: Seq<u8>, pos: int, k: nat) -> Option<(nat, int)>
    decreases p.len() - pos,
{
    if pos < 0 || pos >= p.len() || k > 9 || (k == 9 && p[pos] > 1) {
        None
    } else if p[pos] < 128 {
        Some((p[pos] as nat, pos + 1))
    } else {
        match varint_at(p, pos + 1, k + 1) {
            Some((n, end)) => Some(((p[pos] - 128 + 128 * n) as nat, end)),
            None => None,
        }
    }
}

/// Reads the record at `pos`: its tag, its body and where it ends.
pub open spec fn record_at(p: Seq<u8>, pos: int) -> Result<(u64, Seq<u8>, int), SnapshotError> {
    let offset = pos as usize;
    match varint_at(p, pos, 0) {
        None => Err(SnapshotError::MalformedVarint(offset)),
        Some((tag, at)) => {
            if at + 4 > p.len() {
                Err(
                    SnapshotError::TruncatedField {
                        record: "record header",
                        offset,
                        field: "length",
                    },
                )
            } else {
                let len = bytes::unle(p.subrange(at, at + 4));
                let remaining = (p.len() - (at + 4)) as usize;
                if len > MAX_RECORD_LEN {
                    Err(
                        SnapshotError::RecordTooLarge {
                            offset,
                            len: len as u32,
                            cap: MAX_RECORD_LEN,
                        },
                    )
                } else if len > remaining {
                    Err(SnapshotError::RecordOverrun { offset, len: len as u32, remaining })
                } else {
                    Ok((tag as u64, p.subrange(at + 4, at + 4 + len), at + 4 + len))
                }
            }
        },
    }
}

/// A record body that is being read, for error messages.
pub struct Source {
    pub record: &'static str,
    pub offset: usize,
}

/// Reads a number of `width` bytes.
pub open spec fn num_at(
    src: Source,
    body: Seq<u8>,
    pos: int,
    width: nat,
    field: &'static str,
) -> Result<(nat, int), SnapshotError> {
    if pos + width > body.len() {
        Err(SnapshotError::TruncatedField { record: src.record, offset: src.offset, field })
    } else {
        Ok((bytes::unle(body.subrange(pos, pos + width)), pos + width))
    }
}

/// Reads a text field.
pub open spec fn text_at(
    src: Source,
    body: Seq<u8>,
    pos: int,
    field: &'static str,
    cap: usize,
) -> Result<(Seq<char>, int), SnapshotError> {
    match num_at(src, body, pos, 4, field) {
        Err(e) => Err(e),
        Ok((len, at)) => {
            if len > cap {
                Err(SnapshotError::StringTooLong { field, len: len as usize, cap })
            } else if at + len > body.len() {
                Err(
                    SnapshotError::TruncatedField {
                        record: src.record,
                        offset: src.offset,
                        field,
                    },
                )
            } else {
                let raw = body.subrange(at, at + len);
                if vstd::utf8::valid_utf8(raw) {
                    Ok((vstd::utf8::decode_utf8(raw), at + len))
                } else {
                    Err(SnapshotError::InvalidUtf8 { offset: src.offset, field })
                }
            }
        },
    }
}

/// Hands a value on if the body ends where its last field does.
pub open spec fn ending<T>(src: Source, body: Seq<u8>, pos: int, value: T) -> Result<
    T,
    SnapshotError,
> {
    if pos < body.len() {
        Err(
            SnapshotError::TrailingBytes {
                record: src.record,
                offset: src.offset,
                len: (body.len() - pos) as usize,
            },
        )
    } else {
        Ok(value)
    }
}

/// Reads the body of a meta record.
pub open spec fn meta_at(body: Seq<u8>, offset: usize) -> Result<MetaView, SnapshotError> {
    let src = Source { record: "meta", offset };
    match text_at(src, body, 0, "tool_version", MAX_STRING_LEN) {
        Err(e) => Err(e),
        Ok((tool_version, p1)) => match num_at(src, body, p1, 8, "volume_serial") {
            Err(e) => Err(e),
            Ok((serial, p2)) => match num_at(src, body, p2, 8, "started") {
                Err(e) => Err(e),
                Ok((started, p3)) => match num_at(src, body, p3, 8, "finished") {
                    Err(e) => Err(e),
                    Ok((finished, p4)) => ending(
                        src,
                        body,
                        p4,
                        MetaView {
                            tool_version,
                            volume_serial: serial as u64,
                            started: bytes::signed_of(started),
                            finished: bytes::signed_of(finished),
                        },
                    ),
                },
            },
        },
    }
}

/// Reads the body of a filter record.
pub open spec fn filter_at(body: Seq<u8>, offset: usize) -> Result<Seq<char>, SnapshotError> {
    let src = Source { record: "filter", offset };
    match text_at(src, body, 0, "filter", MAX_STRING_LEN) {
        Err(e) => Err(e),
        Ok((filter, p1)) => ending(src, body, p1, filter),
    }
}

/// Reads `count` further zoom path components.
pub open spec fn components_at(
    src: Source,
    body: Seq<u8>,
    pos: int,
    count: nat,
    read: Seq<Seq<char>>,
) -> Result<(Seq<Seq<char>>, int), SnapshotError>
    decreases count,
{
    if count == 0 {
        Ok((read, pos))
    } else {
        match text_at(src, body, pos, "component", MAX_NAME_LEN) {
            Err(e) => Err(e),
            Ok((part, next)) => components_at(
                src,
                body,
                next,
                (count - 1) as nat,
                read.push(part),
            ),
        }
    }
}

/// Reads the body of a zoom path record.
pub open spec fn zoom_at(body: Seq<u8>, offset: usize) -> Result<Seq<Seq<char>>, SnapshotError> {
    let src = Source { record: "zoom path", offset };
    match num_at(src, body, 0, 4, "component_count") {
        Err(e) => Err(e),
        Ok((count, p1)) => {
            if count > MAX_ZOOM_COMPONENTS {
                Err(SnapshotError::ZoomTooDeep(count as u32))
            } else {
                match components_at(src, body, p1, count, Seq::empty()) {
                    Err(e) => Err(e),
                    Ok((parts, p2)) => ending(src, body, p2, parts),
                }
            }
        },
    }
}

/// The node kind of a code.
pub open spec fn kind_at(code: u8, offset: usize) -> Result<NodeKind, SnapshotError> {
    if code == 0 {
        Ok(NodeKind::File)
    } else if code == 1 {
        Ok(NodeKind::Directory)
    } else if code == 2 {
        Ok(NodeKind::Ads)
    } else if code == 3 {
        Ok(NodeKind::FreeSpace)
    } else if code == 4 {
        Ok(NodeKind::UnknownSpace)
    } else if code == 5 {
        Ok(NodeKind::Unaccessible)
    } else {
        Err(SnapshotError::InvalidNodeKind { offset, kind: code })
    }
}

/// The tag of a code.
pub open spec fn tag_at(code: u8, offset: usize) -> Result<Option<Tag>, SnapshotError> {
    if code == 0 {
        Ok(None)
    } else if code == 1 {
        Ok(Some(Tag::Red))
    } else if code == 2 {
        Ok(Some(Tag::Yellow))
    } else if code == 3 {
        Ok(Some(Tag::Green))
    } else if code == 4 {
        Ok(Some(Tag::Blue))
    } else {
        Err(SnapshotError::InvalidTag { offset, tag: code })
    }
}

/// Reads the kind, tag and flags of a node record.
pub open spec fn node_marks_at(body: Seq<u8>, offset: usize) -> Result<
    (NodeKind, Option<Tag>, NodeFlags),
    SnapshotError,
> {
    let src = Source { record: "node", offset };
    match num_at(src, body, 0, 1, "kind") {
        Err(e) => Err(e),
        Ok((k, p1)) => match kind_at(k as u8, offset) {
            Err(e) => Err(e),
            Ok(kind) => match num_at(src, body, p1, 1, "tag") {
                Err(e) => Err(e),
                Ok((t, p2)) => match tag_at(t as u8, offset) {
                    Err(e) => Err(e),
                    Ok(tag) => match num_at(src, body, p2, 2, "reserved") {
                        Err(e) => Err(e),
                        Ok((reserved, p3)) => {
                            if reserved != 0 {
                                Err(
                                    SnapshotError::MalformedNodeStream(
                                        "non-zero reserved field in node record",
                                    ),
                                )
                            } else {
                                match num_at(src, body, p3, 4, "flags") {
                                    Err(e) => Err(e),
                                    Ok((flags, _)) => Ok((kind, tag, NodeFlags(flags as u32))),
                                }
                            }
                        },
                    },
                },
            },
        },
    }
}

/// The sizes and times of a node record.
pub struct NodeNumbers {
    pub logical_size: u64,
    pub allocated_size: u64,
    pub ads_size: u64,
    pub created: FileTime,
    pub accessed: FileTime,
    pub modified: FileTime,
    pub children: u32,
}

/// Reads the sizes, times and child count of a node record.
pub open spec fn node_numbers_at(body: Seq<u8>, offset: usize) -> Result<
    NodeNumbers,
    SnapshotError,
> {
    let src = Source { record: "node", offset };
    match num_at(src, body, 8, 8, "logical_size") {
        Err(e) => Err(e),
        Ok((logical, _)) => match num_at(src, body, 16, 8, "allocated_size") {
            Err(e) => Err(e),
            Ok((allocated, _)) => match num_at(src, body, 24, 8, "ads_size") {
                Err(e) => Err(e),
                Ok((ads, _)) => match num_at(src, body, 32, 8, "created") {
                    Err(e) => Err(e),
                    Ok((created, _)) => match num_at(src, body, 40, 8, "accessed") {
                        Err(e) => Err(e),
                        Ok((accessed, _)) => match num_at(src, body, 48, 8, "modified") {
                            Err(e) => Err(e),
                            Ok((modified, _)) => match num_at(src, body, 56, 4, "child_count") {
                                Err(e) => Err(e),
                                Ok((children, _)) => Ok(
                                    NodeNumbers {
                                        logical_size: logical as u64,
                                        allocated_size: allocated as u64,
                                        ads_size: ads as u64,
                                        created: bytes::signed_of(created),
                                        accessed: bytes::signed_of(accessed),
                                        modified: bytes::signed_of(modified),
                                        children: children as u32,
                                    },
                                ),
                            },
                        },
                    },
                },
            },
        },
    }
}

/// Reads the body of a node record: the node and its child count.
pub open spec fn node_at(body: Seq<u8>, offset: usize) -> Result<(NodeData, u32), SnapshotError> {
    let src = Source { record: "node", offset };
    match node_marks_at(body, offset) {
        Err(e) => Err(e),
        Ok((kind, tag, flags)) => match node_numbers_at(body, offset) {
            Err(e) => Err(e),
            Ok(n) => match text_at(src, body, 60, "name", MAX_NAME_LEN) {
                Err(e) => Err(e),
                Ok((name, end)) => ending(
                    src,
                    body,
                    end,
                    (
                        NodeData {
                            name,
                            kind,
                            flags,
                            tag,
                            logical_size: n.logical_size,
                            allocated_size: n.allocated_size,
                            ads_size: n.ads_size,
                            created: n.created,
                            accessed: n.accessed,
                            modified: n.modified,
                        },
                        n.children,
                    ),
                ),
            },
        },
    }
}

/// How far the records have been read. `open` lists, from the root down, how
/// many children each node still lacks whose subtree is not complete.
#[verifier::ext_equal]
pub struct Progress {
    pub meta: Option<MetaView>,
    pub filter: Option<Seq<char>>,
    pub zoom_path: Option<Seq<Seq<char>>>,
    pub tree: Option<DataTree>,
    pub open: Seq<u32>,
    pub count: nat,
}

/// A list of open levels without the complete ones at its end.
pub open spec fn unfinished(open: Seq<u32>) -> Seq<u32>
    decreases open.len(),
{
    if open.len() > 0 && open.last() == 0 {
        unfinished(open.drop_last())
    } else {
        open
    }
}

/// A list of open levels with one child less to come in the last.
pub open spec fn one_less(open: Seq<u32>) -> Seq<u32> {
    open.update(open.len() - 1, (open.last() - 1) as u32)
}

impl Progress {
    /// Nothing read yet.
    pub open spec fn start() -> Progress {
        Progress {
            meta: None,
            filter: None,
            zoom_path: None,
            tree: None,
            open: Seq::empty(),
            count: 0,
        }
    }

    /// Takes in a node that announces `children` children.
    pub open spec fn with_node(self, d: NodeData, children: u32) -> Result<
        Progress,
        SnapshotError,
    > {
        if self.tree is Some && self.open.len() == 0 {
            Err(SnapshotError::MalformedNodeStream("second root node record"))
        } else if children > 0 && self.open.len() >= MAX_DEPTH {
            Err(SnapshotError::DepthCapExceeded)
        } else {
            let below = if self.tree is Some {
                one_less(self.open)
            } else {
                self.open
            };
            Ok(
                Progress {
                    tree: Some(
                        match self.tree {
                            None => model::data_leaf(d),
                            Some(t) => model::with_first(
                                t,
                                (self.open.len() - 1) as nat,
                                model::data_leaf(d),
                            ),
                        },
                    ),
                    open: if children > 0 {
                        below.push(children)
                    } else {
                        unfinished(below)
                    },
                    count: self.count + 1,
                    ..self
                },
            )
        }
    }

    /// Takes in a record.
    pub open spec fn with_record(self, tag: u64, body: Seq<u8>, offset: usize) -> Result<
        Progress,
        SnapshotError,
    > {
        if tag == TAG_META {
            if self.meta is Some {
                Err(SnapshotError::DuplicateRecord("meta"))
            } else if self.filter is Some || self.zoom_path is Some || self.tree is Some {
                Err(SnapshotError::MissingRecord("meta before other records"))
            } else {
                match meta_at(body, offset) {
                    Err(e) => Err(e),
                    Ok(meta) => Ok(Progress { meta: Some(meta), ..self }),
                }
            }
        } else if tag == TAG_FILTER {
            if self.filter is Some {
                Err(SnapshotError::DuplicateRecord("filter"))
            } else if self.meta is None {
                Err(SnapshotError::MissingRecord("meta"))
            } else if self.zoom_path is Some || self.tree is Some {
                Err(SnapshotError::MissingRecord("filter before zoom/nodes"))
            } else {
                match filter_at(body, offset) {
                    Err(e) => Err(e),
                    Ok(filter) => Ok(Progress { filter: Some(filter), ..self }),
                }
            }
        } else if tag == TAG_ZOOM_PATH {
            if self.zoom_path is Some {
                Err(SnapshotError::DuplicateRecord("zoom path"))
            } else if self.meta is None || self.filter is None {
                Err(SnapshotError::MissingRecord("meta/filter"))
            } else if self.tree is Some {
                Err(SnapshotError::MissingRecord("zoom path before nodes"))
            } else {
                match zoom_at(body, offset) {
                    Err(e) => Err(e),
                    Ok(zoom) => Ok(Progress { zoom_path: Some(zoom), ..self }),
                }
            }
        } else if tag == TAG_NODE {
            if self.meta is None || self.filter is None || self.zoom_path is None {
                Err(SnapshotError::MissingRecord("meta/filter/zoom path"))
            } else if self.count + 1 > MAX_NODES {
                Err(SnapshotError::NodeCountExceeded { cap: MAX_NODES })
            } else {
                match node_at(body, offset) {
                    Err(e) => Err(e),
                    Ok((d, children)) => self.with_node(d, children),
                }
            }
        } else {
            Err(SnapshotError::UnknownRecordType { offset, tag })
        }
    }

    /// What the records make up.
    pub open spec fn finish(self) -> Result<SnapshotView, SnapshotError> {
        if self.open.len() > 0 {
            Err(
                SnapshotError::MalformedNodeStream(
                    "node declared more children than the stream provides",
                ),
            )
        } else if self.tree is None {
            Err(SnapshotError::MissingRecord("node"))
        } else {
            Ok(
                SnapshotView {
                    tree: self.tree,
                    filter: self.filter->0,
                    zoom_path: self.zoom_path->0,
                    meta: self.meta->0,
                },
            )
        }
    }
}

pub proof fn lemma_varint_end(p: Seq<u8>, pos: int, k: nat)
    ensures
        varint_at(p, pos, k) matches Some((n, end)) ==> 0 <= pos < end <= p.len(),
    decreases p.len() - pos,
{
    if !(pos < 0 || pos >= p.len() || k > 9 || (k == 9 && p[pos] > 1)) && p[pos] >= 128 {
        lemma_varint_end(p, pos + 1, k + 1);
    }
}

/// Reads the records from `pos` on.
#[verifier::opaque]
pub open spec fn records_from(p: Seq<u8>, pos: int, st: Progress) -> Result<
    Progress,
    SnapshotError,
>
    decreases p.len() - pos,
{
    if pos >= p.len() {
        Ok(st)
    } else {
        match record_at(p, pos) {
            Err(e) => Err(e),
            Ok((tag, body, next)) => {
                proof {
                    lemma_varint_end(p, pos, 0);
                }
                match st.with_record(tag, body, pos as usize) {
                    Err(e) => Err(e),
                    Ok(st2) => records_from(p, next, st2),
                }
            },
        }
    }
}

/// The snapshot in a payload, or what is wrong with it.
pub open spec fn snapshot_in(p: Seq<u8>) -> Result<SnapshotView, SnapshotError> {
    match records_from(p, 0, Progress::start()) {
        Err(e) => Err(e),
        Ok(st) => st.finish(),
    }
}

/// The part of a file's header that decides where its parts lie.
pub struct Layout {
    pub header_len: usize,
    pub payload_len: u64,
    pub stored_crc32: u32,
}

/// Reads the header up to its CRC-32.
pub open spec fn layout_of(b: Seq<u8>) -> Result<Layout, SnapshotError> {
    let version = bytes::unle(b.subrange(8, 10)) as u16;
    let header_len = bytes::unle(b.subrange(10, 12)) as u16;
    let flags = bytes::unle(b.subrange(12, 16)) as u32;
    if b.len() < HEADER_LEN + TRAILER_LEN {
        Err(SnapshotError::TooShort { len: b.len() as usize, need: 36 })
    } else if b.subrange(0, 8) != magic() {
        Err(SnapshotError::BadMagic)
    } else if version != FORMAT_VERSION {
        Err(SnapshotError::UnsupportedVersion(version))
    } else if header_len < MIN_HEADER_LEN || header_len > MAX_HEADER_LEN {
        Err(SnapshotError::BadHeaderLength(header_len))
    } else if b.len() < header_len + TRAILER_LEN {
        Err(
            SnapshotError::TooShort {
                len: b.len() as usize,
                need: (header_len + TRAILER_LEN) as usize,
            },
        )
    } else if flags != 0 {
        Err(SnapshotError::UnsupportedFlags(flags))
    } else {
        Ok(
            Layout {
                header_len: header_len as usize,
                payload_len: bytes::unle(b.subrange(16, 24)) as u64,
                stored_crc32: bytes::unle(b.subrange(header_len - 4, header_len as int)) as u32,
            },
        )
    }
}

/// The bytes that the header's CRC-32 is taken of.
pub open spec fn checked_header(b: Seq<u8>, l: Layout) -> Seq<u8> {
    b.subrange(0, l.header_len - 4)
}

/// Finds the payload of a file whose header has the CRC-32 `computed`.
pub open spec fn payload_in(b: Seq<u8>, l: Layout, computed: u32) -> Result<
    Seq<u8>,
    SnapshotError,
> {
    let actual = (b.len() - l.header_len - TRAILER_LEN) as u64;
    if l.stored_crc32 != computed {
        Err(SnapshotError::HeaderCrcMismatch { stored: l.stored_crc32, computed })
    } else if l.payload_len > MAX_PAYLOAD_LEN {
        Err(SnapshotError::PayloadTooLarge(l.payload_len))
    } else if l.payload_len != actual {
        Err(SnapshotError::PayloadLengthMismatch { announced: l.payload_len, actual })
    } else {
        Ok(b.subrange(l.header_len as int, l.header_len + l.payload_len))
    }
}

/// Reads the payload of a file if it has the CRC-64 `computed` that is stored
/// behind it.
pub open spec fn trusted_payload(b: Seq<u8>, payload: Seq<u8>, computed: u64) -> Result<
    SnapshotView,
    SnapshotError,
> {
    let stored = bytes::unle(b.subrange(b.len() - TRAILER_LEN, b.len() as int)) as u64;
    if stored != computed {
        Err(SnapshotError::PayloadCrcMismatch { stored, computed })
    } else {
        snapshot_in(payload)
    }
}

/// The number of each kind and tag in a file.
pub proof fn law_codes()
    ensures
        kind_code(NodeKind::File) == 0,
        kind_code(NodeKind::Directory) == 1,
        kind_code(NodeKind::Ads) == 2,
        kind_code(NodeKind::FreeSpace) == 3,
        kind_code(NodeKind::UnknownSpace) == 4,
        kind_code(NodeKind::Unaccessible) == 5,
        tag_code(None) == 0,
        tag_code(Some(Tag::Red)) == 1,
        tag_code(Some(Tag::Yellow)) == 2,
        tag_code(Some(Tag::Green)) == 3,
        tag_code(Some(Tag::Blue)) == 4,
{
}

/// Where the values of a node stand in its record: its kind, tag and flags, its
/// logical, allocated and stream size, the times of creation, access and
/// modification, the number of its children and its name, each number with its
/// lowest byte first.
pub proof fn law_node_record(d: NodeData, children: nat)
    requires
        children <= u32::MAX,
    ensures
        ({
            let b = node_body(d, children);
            &&& b.len() >= 64
            &&& b[0] == kind_code(d.kind)
            &&& b[1] == tag_code(d.tag)
            &&& b[2] == 0 && b[3] == 0
            &&& b.subrange(4, 8) == bytes::le(d.flags.0 as nat, 4)
            &&& b.subrange(8, 16) == bytes::le(d.logical_size as nat, 8)
            &&& b.subrange(16, 24) == bytes::le(d.allocated_size as nat, 8)
            &&& b.subrange(24, 32) == bytes::le(d.ads_size as nat, 8)
            &&& b.subrange(32, 40) == bytes::le(bytes::bits_of(d.created) as nat, 8)
            &&& b.subrange(40, 48) == bytes::le(bytes::bits_of(d.accessed) as nat, 8)
            &&& b.subrange(48, 56) == bytes::le(bytes::bits_of(d.modified) as nat, 8)
            &&& b.subrange(56, 60) == bytes::le(children, 4)
            &&& b.subrange(60, 64) == bytes::le(vstd::utf8::encode_utf8(d.name).len(), 4)
            &&& b.skip(64) == vstd::utf8::encode_utf8(d.name)
        }),
{
    let b = node_body(d, children);
    let n = vstd::utf8::encode_utf8(d.name);
    bytes::lemma_le_len(d.flags.0 as nat, 4);
    bytes::lemma_le_len(d.logical_size as nat, 8);
    bytes::lemma_le_len(d.allocated_size as nat, 8);
    bytes::lemma_le_len(d.ads_size as nat, 8);
    bytes::lemma_le_len(bytes::bits_of(d.created) as nat, 8);
    bytes::lemma_le_len(bytes::bits_of(d.accessed) as nat, 8);
    bytes::lemma_le_len(bytes::bits_of(d.modified) as nat, 8);
    bytes::lemma_le_len(children, 4);
    bytes::lemma_le_len(n.len(), 4);
    assert(b.subrange(4, 8) =~= bytes::le(d.flags.0 as nat, 4));
    assert(b.subrange(8, 16) =~= bytes::le(d.logical_size as nat, 8));
    assert(b.subrange(16, 24) =~= bytes::le(d.allocated_size as nat, 8));
    assert(b.subrange(24, 32) =~= bytes::le(d.ads_size as nat, 8));
    assert(b.subrange(32, 40) =~= bytes::le(bytes::bits_of(d.created) as nat, 8));
    assert(b.subrange(40, 48) =~= bytes::le(bytes::bits_of(d.accessed) as nat, 8));
    assert(b.subrange(48, 56) =~= bytes::le(bytes::bits_of(d.modified) as nat, 8));
    assert(b.subrange(56, 60) =~= bytes::le(children, 4));
    assert(b.subrange(60, 64) =~= bytes::le(n.len(), 4));
    assert(b.skip(64) =~= n);
}

/// The records of a file have the numbers one to four and come in this order: what
/// is said about the scan, the filter, the zoomed path, then the nodes.
pub proof fn law_record_numbers(v: SnapshotView, body: Seq<u8>, tag: u64)
    requires
        tag < 128,
    ensures
        record(tag, body) == seq![tag as u8] + bytes::le(body.len(), 4) + body,
        preamble(v) == record(1, meta_body(v.meta)) + record(2, text_field(v.filter)) + record(
            3,
            zoom_body(v.zoom_path),
        ),
        forall|t: DataTree| #[trigger]
            tree_records(t) == record(4, node_body(t.data, t.kids.len())) + forest_records(t.kids),
{
}

/// What is said about the scan: the version of the tool, the serial number of the
/// volume, and when the scan started and ended.
pub proof fn law_meta_record(m: MetaView)
    ensures
        ({
            let b = meta_body(m);
            let n = vstd::utf8::encode_utf8(m.tool_version);
            let k = 4 + n.len() as int;
            &&& b.len() == k + 24
            &&& b.subrange(0, 4) == bytes::le(n.len(), 4)
            &&& b.subrange(4, k) == n
            &&& b.subrange(k, k + 8) == bytes::le(m.volume_serial as nat, 8)
            &&& b.subrange(k + 8, k + 16) == bytes::le(bytes::bits_of(m.started) as nat, 8)
            &&& b.subrange(k + 16, k + 24) == bytes::le(bytes::bits_of(m.finished) as nat, 8)
        }),
{
    let b = meta_body(m);
    let n = vstd::utf8::encode_utf8(m.tool_version);
    let k = 4 + n.len() as int;
    bytes::lemma_le_len(n.len(), 4);
    bytes::lemma_le_len(m.volume_serial as nat, 8);
    bytes::lemma_le_len(bytes::bits_of(m.started) as nat, 8);
    bytes::lemma_le_len(bytes::bits_of(m.finished) as nat, 8);
    assert(b.subrange(0, 4) =~= bytes::le(n.len(), 4));
    assert(b.subrange(4, k) =~= n);
    assert(b.subrange(k, k + 8) =~= bytes::le(m.volume_serial as nat, 8));
    assert(b.subrange(k + 8, k + 16) =~= bytes::le(bytes::bits_of(m.started) as nat, 8));
    assert(b.subrange(k + 16, k + 24) =~= bytes::le(bytes::bits_of(m.finished) as nat, 8));
}

} // verus!
