//! Saving a scanned tree, with its filter, zoom path and scan metadata, to
//! `.rssnap` bytes and loading it again.

use vstd::prelude::*;
use vstd::slice::slice_subrange;
use vstd::string::*;

use crate::model::State;
use crate::node::{NodeFlags, NodeKind, NodeParams, Tag};
use crate::snapshot_format::{
    Layout, MetaView, NodeNumbers, Progress, SnapshotError, SnapshotView, Source, FORMAT_VERSION,
    HEADER_LEN, MAX_DEPTH, MAX_HEADER_LEN, MAX_NAME_LEN, MAX_NODES, MAX_PAYLOAD_LEN,
    MAX_RECORD_LEN, MAX_STRING_LEN, MAX_ZOOM_COMPONENTS, MIN_HEADER_LEN, TAG_FILTER, TAG_META,
    TAG_NODE, TAG_ZOOM_PATH, TRAILER_LEN,
};
use crate::tree::Tree;
use crate::{bytes, model, snapshot_format, snapshot_laws, text, FileTime, NodeId};

verus! {

/// The CRC-32 (IEEE) of bytes.
pub uninterp spec fn crc32_of(data: Seq<u8>) -> u32;

/// The CRC-64 (ECMA) of bytes.
pub uninterp spec fn crc64_of(data: Seq<u8>) -> u64;

/// `crc32fast::hash`: the checksum is a function of the bytes alone.
#[verifier::external_body]
fn crc32(data: &[u8]) -> (crc: u32)
    ensures
        crc == crc32_of(data@),
{
    crc32fast::hash(data)
}

/// Whether one sequence is the other with the byte at `i` changed.
pub open spec fn changed_at(a: Seq<u8>, b: Seq<u8>, i: int) -> bool {
    &&& a.len() == b.len()
    &&& 0 <= i < a.len()
    &&& a[i] != b[i]
    &&& forall|j: int| 0 <= j < a.len() && j != i ==> a[j] == #[trigger] b[j]
}

/// Whether two sequences differ in one byte and no more.
pub open spec fn one_byte_apart(a: Seq<u8>, b: Seq<u8>) -> bool {
    exists|i: int| #[trigger] changed_at(a, b, i)
}

/// `crc64fast::Digest` over one write: the checksum is a function of the bytes
/// alone, and bytes that differ in one place have different checksums. The crate
/// gives the CRC-64/XZ: the state takes in a byte by `update_1` of its module
/// `table`, which shifts the state by eight bits and combines it with the entry
/// of `TABLE_0` at the byte and the low bits. The entries differ from one another
/// in their top eight bits. So different bytes lead from one state to different
/// states, and one byte leads from different states to different states.
#[verifier::external_body]
fn crc64(data: &[u8]) -> (crc: u64)
    ensures
        crc == crc64_of(data@),
        forall|other: Seq<u8>|
            one_byte_apart(other, data@) ==> #[trigger] crc64_of(other) != crc,
{
    let mut digest = crc64fast::Digest::new();
    digest.write(data);
    digest.sum64()
}

/// Where a scanned tree comes from.
#[derive(Debug, PartialEq, Eq)]
pub struct ScanMetadata {
    /// Version of the tool that made the scan.
    pub tool_version: String,
    /// Serial number of the scanned volume; 0 where it is unknown.
    pub volume_serial: u64,
    /// When the scan started.
    pub started: FileTime,
    /// When the scan finished.
    pub finished: FileTime,
}

impl View for ScanMetadata {
    type V = MetaView;

    open spec fn view(&self) -> MetaView {
        MetaView {
            tool_version: self.tool_version@,
            volume_serial: self.volume_serial,
            started: self.started,
            finished: self.finished,
        }
    }
}

/// A saved view: the tree with its tags, the filter, the zoom path and the scan
/// metadata.
pub struct Snapshot {
    pub tree: Tree,
    /// The view's filter; empty where none was set.
    pub filter: String,
    /// Names of the zoomed node below the root; empty for the root.
    pub zoom_path: Vec<String>,
    pub meta: ScanMetadata,
}

impl View for Snapshot {
    type V = SnapshotView;

    open spec fn view(&self) -> SnapshotView {
        SnapshotView {
            tree: match self.tree@.root {
                Some(r) => Some(self.tree@.data(r)),
                None => None,
            },
            filter: self.filter@,
            zoom_path: text::texts(self.zoom_path@),
            meta: self.meta@,
        }
    }
}

/// The bytes of a snapshot, or why there are none.
pub open spec fn encoding(v: SnapshotView) -> Result<Seq<u8>, SnapshotError> {
    match snapshot_format::payload_of(v) {
        Err(e) => Err(e),
        Ok(p) => {
            if p.len() > MAX_PAYLOAD_LEN {
                Err(SnapshotError::PayloadTooLarge(p.len() as u64))
            } else {
                Ok(
                    snapshot_format::framed(
                        p,
                        crc32_of(snapshot_format::header(p.len())),
                        crc64_of(p),
                    ),
                )
            }
        },
    }
}

/// The snapshot in bytes, or what is wrong with them.
pub open spec fn decoding(b: Seq<u8>) -> Result<SnapshotView, SnapshotError> {
    match snapshot_format::layout_of(b) {
        Err(e) => Err(e),
        Ok(l) => match snapshot_format::payload_in(
            b,
            l,
            crc32_of(snapshot_format::checked_header(b, l)),
        ) {
            Err(e) => Err(e),
            Ok(p) => snapshot_format::trusted_payload(b, p, crc64_of(p)),
        },
    }
}

/// Whether bytes are a saved snapshot with one byte changed behind the header.
pub open spec fn damaged(v: SnapshotView, b: Seq<u8>) -> bool {
    encoding(v) matches Ok(a) && exists|i: int| 28 <= i && #[trigger] changed_at(a, b, i)
}

/// The error for a payload whose CRC-64 is not the stored one.
pub open spec fn damage_of(b: Seq<u8>) -> SnapshotError {
    let n = b.len() as int;
    SnapshotError::PayloadCrcMismatch {
        stored: bytes::unle(b.subrange(n - 8, n)) as u64,
        computed: crc64_of(b.subrange(28, n - 8)),
    }
}

/// Whether the header of a file is sound, and the payload that it tells of is
/// `payload`.
pub open spec fn found_in(b: Seq<u8>, payload: Seq<u8>) -> bool {
    snapshot_format::layout_of(b) matches Ok(l) && snapshot_format::payload_in(
        b,
        l,
        crc32_of(snapshot_format::checked_header(b, l)),
    ) == Ok::<_, SnapshotError>(payload)
}

/// Appends a varint.
fn put_varint(out: &mut Vec<u8>, value: u64)
    ensures
        final(out)@ == old(out)@ + snapshot_format::varint(value as nat),
{
    let ghost before = out@;
    let mut rest: u64 = value;
    proof {
        assert(out@ + snapshot_format::varint(rest as nat) =~= before + snapshot_format::varint(
            value as nat,
        ));
    }
    while rest >= 128
        invariant
            out@ + snapshot_format::varint(rest as nat) == before + snapshot_format::varint(
                value as nat,
            ),
        decreases rest,
    {
        let ghost prev = out@;
        let ghost r = rest;
        out.push((rest % 128 + 128) as u8);
        rest = rest / 128;
        proof {
            assert(snapshot_format::varint(r as nat) == seq![(r % 128 + 128) as u8]
                + snapshot_format::varint(rest as nat));
            assert(out@ + snapshot_format::varint(rest as nat) =~= prev + snapshot_format::varint(
                r as nat,
            ));
        }
    }
    out.push(rest as u8);
    proof {
        assert(out@ =~= before + snapshot_format::varint(value as nat));
    }
}

/// Appends a text field.
fn put_text(out: &mut Vec<u8>, s: &str)
    ensures
        final(out)@ == old(out)@ + snapshot_format::text_field(s@),
{
    let ghost before = out@;
    let raw: &[u8] = s.as_bytes();
    bytes::push_le(out, raw.len() as u64, 4);
    out.extend_from_slice(raw);
    proof {
        assert(out@ =~= before + snapshot_format::text_field(s@));
    }
}

/// Appends a record, unless its body is too long for a four-byte length.
fn put_record(out: &mut Vec<u8>, tag: u64, body: &Vec<u8>) -> (r: Result<(), SnapshotError>)
    ensures
        body@.len() <= u32::MAX ==> r is Ok && final(out)@ == old(out)@ + snapshot_format::record(
            tag,
            body@,
        ),
        body@.len() > u32::MAX ==> r == Err::<(), _>(snapshot_format::too_large(old(out)@.len())),
{
    if body.len() as u64 > u32::MAX as u64 {
        return Err(
            SnapshotError::RecordTooLarge {
                offset: out.len(),
                len: u32::MAX,
                cap: MAX_RECORD_LEN,
            },
        );
    }
    let ghost before = out@;
    put_varint(out, tag);
    bytes::push_le(out, body.len() as u64, 4);
    out.extend_from_slice(body.as_slice());
    proof {
        assert(out@ =~= before + snapshot_format::record(tag, body@));
    }
    Ok(())
}

fn kind_to_u8(kind: NodeKind) -> (code: u8)
    ensures
        code == snapshot_format::kind_code(kind),
{
    match kind {
        NodeKind::File => 0,
        NodeKind::Directory => 1,
        NodeKind::Ads => 2,
        NodeKind::FreeSpace => 3,
        NodeKind::UnknownSpace => 4,
        NodeKind::Unaccessible => 5,
    }
}

fn kind_from_u8(value: u8, offset: usize) -> (r: Result<NodeKind, SnapshotError>)
    ensures
        r == snapshot_format::kind_at(value, offset),
{
    match value {
        0 => Ok(NodeKind::File),
        1 => Ok(NodeKind::Directory),
        2 => Ok(NodeKind::Ads),
        3 => Ok(NodeKind::FreeSpace),
        4 => Ok(NodeKind::UnknownSpace),
        5 => Ok(NodeKind::Unaccessible),
        kind => Err(SnapshotError::InvalidNodeKind { offset, kind }),
    }
}

fn tag_to_u8(tag: Option<Tag>) -> (code: u8)
    ensures
        code == snapshot_format::tag_code(tag),
{
    match tag {
        None => 0,
        Some(Tag::Red) => 1,
        Some(Tag::Yellow) => 2,
        Some(Tag::Green) => 3,
        Some(Tag::Blue) => 4,
    }
}

fn tag_from_u8(value: u8, offset: usize) -> (r: Result<Option<Tag>, SnapshotError>)
    ensures
        r == snapshot_format::tag_at(value, offset),
{
    match value {
        0 => Ok(None),
        1 => Ok(Some(Tag::Red)),
        2 => Ok(Some(Tag::Yellow)),
        3 => Ok(Some(Tag::Green)),
        4 => Ok(Some(Tag::Blue)),
        tag => Err(SnapshotError::InvalidTag { offset, tag }),
    }
}

/// Appends the node record of `id`, unless its body is too long for a
/// four-byte length.
fn put_node(out: &mut Vec<u8>, tree: &Tree, id: NodeId, children: usize) -> (r: Result<
    (),
    SnapshotError,
>)
    requires
        id < tree@.nodes.len(),
    ensures
        ({
            let body = snapshot_format::node_body(tree@.nodes[id as int]@, children as nat);
            if body.len() <= u32::MAX {
                r is Ok && final(out)@ == old(out)@ + snapshot_format::record(TAG_NODE, body)
            } else {
                r == Err::<(), _>(snapshot_format::too_large(old(out)@.len()))
            }
        }),
{
    let node = tree.node(id);
    let mut rec: Vec<u8> = Vec::new();
    rec.push(kind_to_u8(node.kind));
    rec.push(tag_to_u8(node.tag));
    rec.push(0);
    rec.push(0);
    bytes::push_le(&mut rec, node.flags.0 as u64, 4);
    bytes::push_le(&mut rec, node.logical_size, 8);
    bytes::push_le(&mut rec, node.allocated_size, 8);
    bytes::push_le(&mut rec, node.ads_size, 8);
    bytes::push_le_signed(&mut rec, node.created);
    bytes::push_le_signed(&mut rec, node.accessed);
    bytes::push_le_signed(&mut rec, node.modified);
    bytes::push_le(&mut rec, children as u64, 4);
    proof {
        assert(rec@ =~= snapshot_format::node_head(node@, children as nat));
    }
    put_text(&mut rec, node.name.as_str());
    put_record(out, TAG_NODE, &rec)
}

/// The fields of a node record before its name take 60 bytes.
pub proof fn lemma_node_head_len(d: crate::node::NodeData, children: nat)
    ensures
        snapshot_format::node_head(d, children).len() == 60,
{
    bytes::lemma_le_len(d.flags.0 as nat, 4);
    bytes::lemma_le_len(d.logical_size as nat, 8);
    bytes::lemma_le_len(d.allocated_size as nat, 8);
    bytes::lemma_le_len(d.ads_size as nat, 8);
    bytes::lemma_le_len(bytes::bits_of(d.created) as nat, 8);
    bytes::lemma_le_len(bytes::bits_of(d.accessed) as nat, 8);
    bytes::lemma_le_len(bytes::bits_of(d.modified) as nat, 8);
    bytes::lemma_le_len(children, 4);
}

/// The header of a file up to its CRC-32.
pub fn header_for(payload_len: usize) -> (out: Vec<u8>)
    ensures
        out@ == snapshot_format::header(payload_len as nat),
{
    let mut out: Vec<u8> = Vec::new();
    out.push(0x52);
    out.push(0x53);
    out.push(0x53);
    out.push(0x4e);
    out.push(0x41);
    out.push(0x50);
    out.push(0);
    out.push(0);
    proof {
        assert(out@ =~= snapshot_format::magic());
    }
    bytes::push_le(&mut out, FORMAT_VERSION as u64, 2);
    bytes::push_le(&mut out, HEADER_LEN as u64, 2);
    bytes::push_le(&mut out, 0, 4);
    bytes::push_le(&mut out, payload_len as u64, 8);
    proof {
        assert(out@ =~= snapshot_format::header(payload_len as nat));
    }
    out
}

/// A file around a payload, with the given checksums.
pub fn frame(payload: &Vec<u8>, header_crc: u32, payload_crc: u64) -> (out: Vec<u8>)
    ensures
        out@ == snapshot_format::framed(payload@, header_crc, payload_crc),
{
    let mut out = header_for(payload.len());
    bytes::push_le(&mut out, header_crc as u64, 4);
    out.extend_from_slice(payload.as_slice());
    bytes::push_le(&mut out, payload_crc, 8);
    proof {
        assert(out@ =~= snapshot_format::framed(payload@, header_crc, payload_crc));
    }
    out
}

impl Snapshot {
    /// A snapshot of `tree` without filter, zoomed to the root.
    pub fn new(tree: Tree, meta: ScanMetadata) -> (snapshot: Self)
        ensures
            snapshot.tree == tree,
            snapshot.meta == meta,
            snapshot.filter@ == Seq::<char>::empty(),
            snapshot.zoom_path@ == Seq::<String>::empty(),
    {
        Snapshot { tree, filter: String::new(), zoom_path: Vec::new(), meta }
    }

    /// The snapshot as `.rssnap` bytes.
    pub fn encode(&self) -> (r: Result<Vec<u8>, SnapshotError>)
        requires
            self.tree@.wf(),
        ensures
            match encoding(self@) {
                Ok(b) => r matches Ok(out) && out@ == b,
                Err(e) => r == Err::<Vec<u8>, _>(e),
            },
    {
        let mut payload: Vec<u8> = Vec::new();
        self.encode_payload(&mut payload)?;
        if payload.len() as u64 > MAX_PAYLOAD_LEN {
            return Err(SnapshotError::PayloadTooLarge(payload.len() as u64));
        }
        let head = header_for(payload.len());
        let header_crc: u32 = crc32(head.as_slice());
        let payload_crc: u64 = crc64(payload.as_slice());
        Ok(frame(&payload, header_crc, payload_crc))
    }

    /// Appends the snapshot's `.rssnap` bytes to `writer`.
    pub fn write_to(&self, writer: &mut Vec<u8>) -> (r: Result<(), SnapshotError>)
        requires
            self.tree@.wf(),
        ensures
            match encoding(self@) {
                Ok(b) => r is Ok && final(writer)@ == old(writer)@ + b,
                Err(e) => r == Err::<(), _>(e) && final(writer)@ == old(writer)@,
            },
    {
        let mut out = self.encode()?;
        writer.append(&mut out);
        Ok(())
    }

    /// Appends the record stream to `out`.
    fn encode_payload(&self, out: &mut Vec<u8>) -> (r: Result<(), SnapshotError>)
        requires
            self.tree@.wf(),
            old(out)@.len() == 0,
        ensures
            match snapshot_format::payload_of(self@) {
                Ok(p) => r is Ok && final(out)@ == p,
                Err(e) => r == Err::<(), _>(e),
            },
    {
        let root: NodeId = match self.tree.root() {
            Some(root) => root,
            None => {
                return Err(SnapshotError::EmptyTree);
            },
        };
        let mut rec: Vec<u8> = Vec::new();
        put_text(&mut rec, self.meta.tool_version.as_str());
        bytes::push_le(&mut rec, self.meta.volume_serial, 8);
        bytes::push_le_signed(&mut rec, self.meta.started);
        bytes::push_le_signed(&mut rec, self.meta.finished);
        proof {
            assert(rec@ =~= snapshot_format::meta_body(self.meta@));
        }
        put_record(out, TAG_META, &rec)?;
        proof {
            assert(out@ =~= snapshot_format::record(TAG_META, snapshot_format::meta_body(self.meta@)));
        }
        let mut rec: Vec<u8> = Vec::new();
        put_text(&mut rec, self.filter.as_str());
        proof {
            assert(rec@ =~= snapshot_format::text_field(self.filter@));
        }
        put_record(out, TAG_FILTER, &rec)?;
        if self.zoom_path.len() > MAX_ZOOM_COMPONENTS as usize {
            let n: u64 = self.zoom_path.len() as u64 % 0x1_0000_0000;
            return Err(SnapshotError::ZoomTooDeep(n as u32));
        }
        let ghost parts = text::texts(self.zoom_path@);
        let mut rec: Vec<u8> = Vec::new();
        bytes::push_le(&mut rec, self.zoom_path.len() as u64, 4);
        let ghost head = rec@;
        proof {
            assert(parts.take(0) =~= Seq::<Seq<char>>::empty());
            assert(rec@ =~= head + snapshot_format::text_fields(parts.take(0)));
        }
        for i in 0..self.zoom_path.len()
            invariant
                parts == text::texts(self.zoom_path@),
                rec@ == head + snapshot_format::text_fields(parts.take(i as int)),
        {
            put_text(&mut rec, self.zoom_path[i].as_str());
            proof {
                assert(parts.take(i + 1).drop_last() =~= parts.take(i as int));
                assert(parts.take(i + 1).last() == parts[i as int]);
                assert(rec@ =~= head + snapshot_format::text_fields(parts.take(i + 1)));
            }
        }
        proof {
            assert(parts.take(parts.len() as int) =~= parts);
            assert(rec@ =~= snapshot_format::zoom_body(parts));
        }
        put_record(out, TAG_ZOOM_PATH, &rec)?;
        proof {
            assert(out@ =~= snapshot_format::preamble(self@));
        }
        self.put_nodes(out, root)
    }

    /// Appends the node records of the tree below `root`, without recursion,
    /// up to the first that is too large.
    fn put_nodes(&self, out: &mut Vec<u8>, root: NodeId) -> (r: Result<(), SnapshotError>)
        requires
            self.tree@.wf(),
            self.tree@.live(root),
        ensures
            match snapshot_format::tree_overflow(self.tree@.data(root), old(out)@.len()) {
                Some(pos) => r == Err::<(), _>(snapshot_format::too_large(pos)),
                None => r is Ok && final(out)@ == old(out)@ + snapshot_format::tree_records(
                    self.tree@.data(root),
                ),
            },
    {
        let ghost s = self.tree@;
        let ghost before = out@;
        let ghost total = snapshot_format::tree_records(s.data(root));
        let ghost over = snapshot_format::tree_overflow(s.data(root), before.len());
        let mut stack: Vec<NodeId> = Vec::new();
        stack.push(root);
        proof {
            lemma_forest_one(s, root);
            assert(stack@ =~= seq![root]);
        }
        while stack.len() > 0
            invariant
                s == self.tree@,
                s.wf(),
                before == old(out)@,
                over == snapshot_format::tree_overflow(self.tree@.data(root), before.len()),
                forall|i: int| 0 <= i < stack@.len() ==> s.live(#[trigger] stack@[i]),
                out@ + snapshot_format::forest_records(data_list(s, stack@)) == before + total,
                snapshot_format::forest_overflow(data_list(s, stack@), out@.len()) == over,
            decreases model::stack_order(s.roses(stack@)).len(),
        {
            let ghost s0 = stack@;
            let ghost prev = out@;
            let cur: NodeId = stack.pop().unwrap();
            let ghost rest = stack@;
            let ghost ks = s.kids[cur];
            proof {
                assert(s0[s0.len() - 1] == cur);
                assert(s.live(cur));
                assert(s.node_ok(cur));
                assert(s0 =~= rest.push(cur));
            }
            let mut kids: Vec<NodeId> = self.tree.children(cur).collect();
            proof {
                lemma_overflow_step(s, rest, cur, prev.len());
            }
            put_node(out, &self.tree, cur, kids.len())?;
            stack.append(&mut kids);
            proof {
                assert(stack@ =~= rest + ks);
                lemma_forest_step(s, rest, cur);
                let rec = snapshot_format::record(
                    TAG_NODE,
                    snapshot_format::node_body(s.nodes[cur as int]@, ks.len()),
                );
                assert(out@ == prev + rec);
                assert(out@ + snapshot_format::forest_records(data_list(s, stack@)) =~= prev
                    + snapshot_format::forest_records(data_list(s, s0)));
                assert forall|i: int| 0 <= i < stack@.len() implies s.live(#[trigger] stack@[i]) by {
                    if i < rest.len() {
                        assert(stack@[i] == s0[i]);
                    } else {
                        assert(stack@[i] == ks[i - rest.len()]);
                        assert(s.child_ok(cur, i - rest.len()));
                    }
                }
                lemma_stack_shrinks(s, rest, cur);
            }
        }
        proof {
            assert(data_list(s, stack@) =~= Seq::<model::DataTree>::empty());
            assert(out@ =~= before + total);
        }
        Ok(())
    }

    /// Loads a snapshot. Whatever is wrong with the bytes is an error. If one
    /// byte of a saved file is changed behind the header, that is found.
    pub fn decode(data: &[u8]) -> (r: Result<Snapshot, SnapshotError>)
        ensures
            forall|v: SnapshotView| #[trigger]
                damaged(v, data@) ==> r == Err::<Snapshot, _>(damage_of(data@)),
            match decoding(data@) {
                Ok(v) => r matches Ok(s) && s@ == v && s.tree@.wf() && s.tree@.numbered(),
                Err(e) => r == Err::<Snapshot, _>(e),
            },
    {
        proof {
            assert forall|v: SnapshotView| #[trigger] damaged(v, data@) implies found_in(
                data@,
                data@.subrange(28, data@.len() - 8),
            ) by {
                snapshot_laws::lemma_damaged(v, data@);
            }
        }
        let layout = read_layout(data)?;
        let header_crc: u32 = crc32(slice_subrange(data, 0, layout.header_len - 4));
        let payload = find_payload(data, &layout, header_crc)?;
        let payload_crc: u64 = crc64(payload);
        proof {
            assert forall|v: SnapshotView| #[trigger] damaged(v, data@) implies decoding(data@)
                == Err::<SnapshotView, _>(damage_of(data@)) by {
                snapshot_laws::lemma_damaged(v, data@);
                snapshot_laws::law_damage_is_found(v, data@);
                let a = encoding(v)->Ok_0;
                let n = a.len() as int;
                let saved = a.subrange(28, n - 8);
                assert(payload@ == data@.subrange(28, n - 8));
                assert(one_byte_apart(saved, payload@) ==> crc64_of(saved) != payload_crc);
            }
        }
        decode_checked(data, payload, payload_crc)
    }

    /// Loads a snapshot from all of `reader`.
    pub fn read_from(reader: &[u8]) -> (r: Result<Snapshot, SnapshotError>)
        ensures
            forall|v: SnapshotView| #[trigger]
                damaged(v, reader@) ==> r == Err::<Snapshot, _>(damage_of(reader@)),
            match decoding(reader@) {
                Ok(v) => r matches Ok(s) && s@ == v && s.tree@.wf() && s.tree@.numbered(),
                Err(e) => r == Err::<Snapshot, _>(e),
            },
    {
        Snapshot::decode(reader)
    }

    /// The zoomed node: the root for an empty zoom path, nothing where a
    /// component names no child.
    pub fn zoom_root(&self) -> (r: Option<NodeId>)
        requires
            self.tree@.wf(),
        ensures
            r == match self.tree@.root {
                None => None::<NodeId>,
                Some(root) => descend(self.tree@, root, text::texts(self.zoom_path@)),
            },
            r matches Some(id) ==> self.tree@.live(id),
    {
        match self.tree.root() {
            Some(root) => follow_names(&self.tree, root, &self.zoom_path),
            None => None,
        }
    }
}

/// Reads the header of a file up to its CRC-32.
pub fn read_layout(data: &[u8]) -> (r: Result<Layout, SnapshotError>)
    ensures
        r == snapshot_format::layout_of(data@),
        r matches Ok(l) ==> 28 <= l.header_len <= 4096 && l.header_len + 8 <= data@.len(),
{
    let len: usize = data.len();
    proof {
        bytes::lemma_byte_ranges();
    }
    if len < 36 {
        return Err(SnapshotError::TooShort { len, need: 36 });
    }
    let head = header_for(0);
    let mut i: usize = 0;
    while i < 8
        invariant
            i <= 8,
            data@.len() >= 36,
            head@ == snapshot_format::header(0),
            data@.len() == len,
            forall|j: int| 0 <= j < i ==> data@[j] == snapshot_format::magic()[j],
        decreases 8 - i,
    {
        proof {
            assert(head@[i as int] == snapshot_format::magic()[i as int]);
            assert(head@.len() >= 8);
        }
        if data[i] != head[i] {
            proof {
                assert(data@.subrange(0, 8)[i as int] == data@[i as int]);
            }
            return Err(SnapshotError::BadMagic);
        }
        i = i + 1;
    }
    proof {
        assert(data@.subrange(0, 8) =~= snapshot_format::magic());
        bytes::lemma_le_unle(data@.subrange(8, 10));
        bytes::lemma_le_unle(data@.subrange(10, 12));
        bytes::lemma_le_unle(data@.subrange(12, 16));
        bytes::lemma_le_unle(data@.subrange(16, 24));
    }
    let version: u16 = bytes::read_le(data, 8, 2) as u16;
    if version != FORMAT_VERSION {
        return Err(SnapshotError::UnsupportedVersion(version));
    }
    let header_len: u16 = bytes::read_le(data, 10, 2) as u16;
    if header_len < MIN_HEADER_LEN || header_len > MAX_HEADER_LEN {
        return Err(SnapshotError::BadHeaderLength(header_len));
    }
    let end: usize = header_len as usize;
    if len < end + TRAILER_LEN {
        return Err(SnapshotError::TooShort { len, need: end + TRAILER_LEN });
    }
    let flags: u32 = bytes::read_le(data, 12, 4) as u32;
    if flags != 0 {
        return Err(SnapshotError::UnsupportedFlags(flags));
    }
    proof {
        bytes::lemma_le_unle(data@.subrange(end - 4, end as int));
    }
    Ok(
        Layout {
            header_len: end,
            payload_len: bytes::read_le(data, 16, 8),
            stored_crc32: bytes::read_le(data, end - 4, 4) as u32,
        },
    )
}

/// Finds the payload of a file whose header has the CRC-32 `computed`.
pub fn find_payload<'a>(data: &'a [u8], layout: &Layout, computed: u32) -> (r: Result<
    &'a [u8],
    SnapshotError,
>)
    requires
        layout.header_len + 8 <= data@.len(),
    ensures
        match snapshot_format::payload_in(data@, *layout, computed) {
            Ok(p) => r matches Ok(out) && out@ == p,
            Err(e) => r == Err::<&'a [u8], _>(e),
        },
{
    if layout.stored_crc32 != computed {
        return Err(SnapshotError::HeaderCrcMismatch { stored: layout.stored_crc32, computed });
    }
    if layout.payload_len > MAX_PAYLOAD_LEN {
        return Err(SnapshotError::PayloadTooLarge(layout.payload_len));
    }
    let actual: u64 = (data.len() - layout.header_len - TRAILER_LEN) as u64;
    if layout.payload_len != actual {
        return Err(
            SnapshotError::PayloadLengthMismatch { announced: layout.payload_len, actual },
        );
    }
    let end: usize = data.len() - TRAILER_LEN;
    Ok(slice_subrange(data, layout.header_len, end))
}

/// Reads the payload of a file if it has the CRC-64 `computed` that is stored
/// behind it.
pub fn decode_checked(data: &[u8], payload: &[u8], computed: u64) -> (r: Result<
    Snapshot,
    SnapshotError,
>)
    requires
        8 <= data@.len(),
    ensures
        match snapshot_format::trusted_payload(data@, payload@, computed) {
            Ok(v) => r matches Ok(s) && s@ == v && s.tree@.wf() && s.tree@.numbered(),
            Err(e) => r == Err::<Snapshot, _>(e),
        },
{
    let at: usize = data.len() - TRAILER_LEN;
    proof {
        assert(data@.subrange(at as int, at + 8) =~= data@.subrange(
            data@.len() - TRAILER_LEN,
            data@.len() as int,
        ));
    }
    let stored: u64 = bytes::read_le(data, at, 8);
    if stored != computed {
        return Err(SnapshotError::PayloadCrcMismatch { stored, computed });
    }
    decode_payload(payload)
}

/// A record body that is being read.
struct RecordReader<'a> {
    buf: &'a [u8],
    pos: usize,
    record: &'static str,
    offset: usize,
}

impl<'a> RecordReader<'a> {
    spec fn src(self) -> Source {
        Source { record: self.record, offset: self.offset }
    }

    spec fn wf(self) -> bool {
        self.pos <= self.buf@.len()
    }

    /// Whether `next` reads on in the same body at `pos`.
    spec fn moved_to(self, next: Self, pos: int) -> bool {
        &&& next.buf == self.buf
        &&& next.record == self.record
        &&& next.offset == self.offset
        &&& next.pos == pos
        &&& next.wf()
    }

    fn new(buf: &'a [u8], record: &'static str, offset: usize) -> (r: Self)
        ensures
            r.wf(),
            r.pos == 0,
            r.buf == buf,
            r.src() == (Source { record, offset }),
    {
        RecordReader { buf, pos: 0, record, offset }
    }

    /// Reads a number of up to eight bytes.
    fn read_num(&mut self, width: usize, field: &'static str) -> (r: Result<u64, SnapshotError>)
        requires
            old(self).wf(),
            width <= 8,
        ensures
            match snapshot_format::num_at(
                old(self).src(),
                old(self).buf@,
                old(self).pos as int,
                width as nat,
                field,
            ) {
                Ok((n, p)) => {
                    &&& r matches Ok(v) && v == n
                    &&& n < bytes::byte_range(width as nat)
                    &&& old(self).moved_to(*final(self), p)
                },
                Err(e) => r == Err::<u64, _>(e),
            },
    {
        if width > self.buf.len() - self.pos {
            return Err(
                SnapshotError::TruncatedField { record: self.record, offset: self.offset, field },
            );
        }
        proof {
            bytes::lemma_le_unle(self.buf@.subrange(self.pos as int, self.pos + width));
        }
        let n: u64 = bytes::read_le(self.buf, self.pos, width);
        self.pos = self.pos + width;
        Ok(n)
    }

    /// Reads a signed number of eight bytes.
    fn read_i64(&mut self, field: &'static str) -> (r: Result<i64, SnapshotError>)
        requires
            old(self).wf(),
        ensures
            match snapshot_format::num_at(
                old(self).src(),
                old(self).buf@,
                old(self).pos as int,
                8,
                field,
            ) {
                Ok((n, p)) => {
                    &&& r == Ok::<i64, SnapshotError>(bytes::signed_of(n))
                    &&& old(self).moved_to(*final(self), p)
                },
                Err(e) => r == Err::<i64, _>(e),
            },
    {
        let n: u64 = self.read_num(8, field)?;
        Ok(bytes::to_signed(n))
    }

    /// Reads a text field. Its length is held against the cap and the body
    /// before anything is copied.
    fn read_string(&mut self, field: &'static str, cap: usize) -> (r: Result<
        String,
        SnapshotError,
    >)
        requires
            old(self).wf(),
        ensures
            match snapshot_format::text_at(
                old(self).src(),
                old(self).buf@,
                old(self).pos as int,
                field,
                cap,
            ) {
                Ok((s, p)) => {
                    &&& r matches Ok(t) && t@ == s
                    &&& old(self).moved_to(*final(self), p)
                },
                Err(e) => r == Err::<String, _>(e),
            },
    {
        proof {
            bytes::lemma_byte_ranges();
        }
        let len: usize = self.read_num(4, field)? as usize;
        if len > cap {
            return Err(SnapshotError::StringTooLong { field, len, cap });
        }
        if len > self.buf.len() - self.pos {
            return Err(
                SnapshotError::TruncatedField { record: self.record, offset: self.offset, field },
            );
        }
        let raw: &[u8] = slice_subrange(self.buf, self.pos, self.pos + len);
        match text::from_utf8(raw) {
            Some(s) => {
                self.pos = self.pos + len;
                Ok(s.to_owned())
            },
            None => Err(SnapshotError::InvalidUtf8 { offset: self.offset, field }),
        }
    }

    /// Fails unless the whole body has been read.
    fn finish(&self) -> (r: Result<(), SnapshotError>)
        requires
            self.wf(),
        ensures
            r == snapshot_format::ending(self.src(), self.buf@, self.pos as int, ()),
    {
        let left: usize = self.buf.len() - self.pos;
        if left > 0 {
            return Err(
                SnapshotError::TrailingBytes {
                    record: self.record,
                    offset: self.offset,
                    len: left,
                },
            );
        }
        Ok(())
    }
}

fn decode_meta(body: &[u8], offset: usize) -> (r: Result<ScanMetadata, SnapshotError>)
    ensures
        match snapshot_format::meta_at(body@, offset) {
            Ok(v) => r matches Ok(m) && m@ == v,
            Err(e) => r == Err::<ScanMetadata, _>(e),
        },
{
    let mut rec = RecordReader::new(body, "meta", offset);
    let tool_version = rec.read_string("tool_version", MAX_STRING_LEN)?;
    let volume_serial: u64 = rec.read_num(8, "volume_serial")?;
    let started: i64 = rec.read_i64("started")?;
    let finished: i64 = rec.read_i64("finished")?;
    rec.finish()?;
    Ok(ScanMetadata { tool_version, volume_serial, started, finished })
}

fn decode_filter(body: &[u8], offset: usize) -> (r: Result<String, SnapshotError>)
    ensures
        match snapshot_format::filter_at(body@, offset) {
            Ok(v) => r matches Ok(s) && s@ == v,
            Err(e) => r == Err::<String, _>(e),
        },
{
    let mut rec = RecordReader::new(body, "filter", offset);
    let filter = rec.read_string("filter", MAX_STRING_LEN)?;
    rec.finish()?;
    Ok(filter)
}

fn decode_zoom_path(body: &[u8], offset: usize) -> (r: Result<Vec<String>, SnapshotError>)
    ensures
        match snapshot_format::zoom_at(body@, offset) {
            Ok(v) => r matches Ok(parts) && text::texts(parts@) == v,
            Err(e) => r == Err::<Vec<String>, _>(e),
        },
{
    let mut rec = RecordReader::new(body, "zoom path", offset);
    proof {
        bytes::lemma_byte_ranges();
    }
    let count: u32 = rec.read_num(4, "component_count")? as u32;
    if count > MAX_ZOOM_COMPONENTS {
        return Err(SnapshotError::ZoomTooDeep(count));
    }
    let mut parts: Vec<String> = Vec::new();
    let ghost src = rec.src();
    let ghost whole = snapshot_format::components_at(
        src,
        body@,
        rec.pos as int,
        count as nat,
        Seq::empty(),
    );
    let mut left: u32 = count;
    proof {
        assert(text::texts(parts@) =~= Seq::<Seq<char>>::empty());
    }
    while left > 0
        invariant
            rec.wf(),
            rec.buf@ == body@,
            rec.src() == src,
            whole == snapshot_format::components_at(
                src,
                body@,
                rec.pos as int,
                left as nat,
                text::texts(parts@),
            ),
            match snapshot_format::zoom_at(body@, offset) {
                Ok(v) => whole matches Ok((w, p)) && snapshot_format::ending(src, body@, p, w)
                    == Ok::<_, SnapshotError>(v),
                Err(e) => match whole {
                    Ok((w, p)) => snapshot_format::ending(src, body@, p, w) == Err::<
                        Seq<Seq<char>>,
                        _,
                    >(e),
                    Err(e2) => e == e2,
                },
            },
        decreases left,
    {
        let ghost before = text::texts(parts@);
        let part = rec.read_string("component", MAX_NAME_LEN)?;
        let ghost t = part@;
        parts.push(part);
        left = left - 1;
        proof {
            assert(text::texts(parts@) =~= before.push(t));
        }
    }
    rec.finish()?;
    Ok(parts)
}

/// The kind, tag and flags of a node record.
fn decode_marks<'a>(rec: &mut RecordReader<'a>) -> (r: Result<
    (NodeKind, Option<Tag>, NodeFlags),
    SnapshotError,
>)
    requires
        old(rec).wf(),
        old(rec).pos == 0,
        old(rec).record == "node",
    ensures
        r == snapshot_format::node_marks_at(old(rec).buf@, old(rec).offset),
        r is Ok ==> old(rec).moved_to(*final(rec), 8),
{
    proof {
        bytes::lemma_byte_ranges();
    }
    let offset: usize = rec.offset;
    let k: u8 = rec.read_num(1, "kind")? as u8;
    let kind = kind_from_u8(k, offset)?;
    let t: u8 = rec.read_num(1, "tag")? as u8;
    let tag = tag_from_u8(t, offset)?;
    let reserved: u64 = rec.read_num(2, "reserved")?;
    if reserved != 0 {
        return Err(SnapshotError::MalformedNodeStream("non-zero reserved field in node record"));
    }
    let flags: u32 = rec.read_num(4, "flags")? as u32;
    Ok((kind, tag, NodeFlags(flags)))
}

/// The sizes, times and child count of a node record.
fn decode_numbers<'a>(rec: &mut RecordReader<'a>) -> (r: Result<NodeNumbers, SnapshotError>)
    requires
        old(rec).wf(),
        old(rec).pos == 8,
        old(rec).record == "node",
    ensures
        r == snapshot_format::node_numbers_at(old(rec).buf@, old(rec).offset),
        r is Ok ==> old(rec).moved_to(*final(rec), 60),
{
    proof {
        bytes::lemma_byte_ranges();
    }
    let logical_size: u64 = rec.read_num(8, "logical_size")?;
    let allocated_size: u64 = rec.read_num(8, "allocated_size")?;
    let ads_size: u64 = rec.read_num(8, "ads_size")?;
    let created: i64 = rec.read_i64("created")?;
    let accessed: i64 = rec.read_i64("accessed")?;
    let modified: i64 = rec.read_i64("modified")?;
    let children: u32 = rec.read_num(4, "child_count")? as u32;
    Ok(
        NodeNumbers {
            logical_size,
            allocated_size,
            ads_size,
            created,
            accessed,
            modified,
            children,
        },
    )
}

fn decode_node(body: &[u8], offset: usize) -> (r: Result<(NodeParams, u32), SnapshotError>)
    ensures
        match snapshot_format::node_at(body@, offset) {
            Ok((d, n)) => r matches Ok((params, children)) && params@ == d && children == n,
            Err(e) => r == Err::<(NodeParams, u32), _>(e),
        },
{
    let mut rec = RecordReader::new(body, "node", offset);
    let (kind, tag, flags) = decode_marks(&mut rec)?;
    let n = decode_numbers(&mut rec)?;
    let name = rec.read_string("name", MAX_NAME_LEN)?;
    rec.finish()?;
    let params = NodeParams {
        name,
        kind,
        flags,
        tag,
        logical_size: n.logical_size,
        allocated_size: n.allocated_size,
        ads_size: n.ads_size,
        created: n.created,
        accessed: n.accessed,
        modified: n.modified,
    };
    Ok((params, n.children))
}

/// Reads a varint at `pos`: its value and where it ends.
fn read_varint(payload: &[u8], pos: usize) -> (r: Result<(u64, usize), SnapshotError>)
    requires
        pos < payload@.len(),
    ensures
        match snapshot_format::varint_at(payload@, pos as int, 0) {
            Some((n, end)) => r matches Ok((value, at)) && value == n && at == end && pos < at
                <= payload@.len(),
            None => r == Err::<(u64, usize), _>(SnapshotError::MalformedVarint(pos)),
        },
{
    let ghost p = payload@;
    let ghost whole = snapshot_format::varint_at(p, pos as int, 0);
    let mut value: u64 = 0;
    let mut scale: u64 = 1;
    let mut at: usize = pos;
    let mut k: u32 = 0;
    proof {
        assert(pow128(0) == 1);
        lemma_pow128();
    }
    loop
        invariant
            p == payload@,
            whole == snapshot_format::varint_at(p, pos as int, 0),
            at == pos + k,
            at <= p.len(),
            k <= 9,
            scale == pow128(k as nat),
            value < scale,
            scale <= 0x8000_0000_0000_0000,
            match snapshot_format::varint_at(p, at as int, k as nat) {
                Some((n, end)) => whole == Some(((value + scale * n) as nat, end)),
                None => whole is None,
            },
        decreases p.len() - at,
    {
        if at >= payload.len() {
            return Err(SnapshotError::MalformedVarint(pos));
        }
        let byte: u8 = payload[at];
        if k == 9 && byte > 1 {
            return Err(SnapshotError::MalformedVarint(pos));
        }
        let low: u64 = (byte % 128) as u64;
        proof {
            lemma_pow128();
            assert(low * scale <= 127 * scale) by (nonlinear_arith)
                requires
                    low <= 127,
            ;
            assert(k == 9 ==> low * scale <= scale) by (nonlinear_arith)
                requires
                    k == 9 ==> low <= 1,
            ;
            assert(scale * low == low * scale) by (nonlinear_arith);
        }
        at = at + 1;
        if byte < 128 {
            return Ok((value + scale * low, at));
        }
        proof {
            if let Some((n, end)) = snapshot_format::varint_at(p, at as int, (k + 1) as nat) {
                assert(scale * (byte - 128 + 128 * n) == scale * low + (128 * scale) * n)
                    by (nonlinear_arith)
                    requires
                        low == byte - 128,
                ;
            }
        }
        value = value + scale * low;
        scale = scale * 128;
        k = k + 1;
    }
}

/// A power of 128.
spec fn pow128(k: nat) -> nat
    decreases k,
{
    if k == 0 {
        1
    } else {
        128 * pow128((k - 1) as nat)
    }
}

proof fn lemma_pow128()
    ensures
        pow128(0) == 1,
        pow128(1) == 0x80,
        pow128(2) == 0x4000,
        pow128(3) == 0x20_0000,
        pow128(4) == 0x1000_0000,
        pow128(5) == 0x8_0000_0000,
        pow128(6) == 0x400_0000_0000,
        pow128(7) == 0x2_0000_0000_0000,
        pow128(8) == 0x100_0000_0000_0000,
        pow128(9) == 0x8000_0000_0000_0000,
{
    reveal_with_fuel(pow128, 10);
}

/// The records that have been read so far.
struct Assembly {
    meta: Option<ScanMetadata>,
    filter: Option<String>,
    zoom_path: Option<Vec<String>>,
    tree: Option<Tree>,
    /// The nodes with children still to come, from the root down.
    pending: Vec<(NodeId, u32)>,
    node_count: u64,
}

spec fn counts(pending: Seq<(NodeId, u32)>) -> Seq<u32> {
    Seq::new(pending.len(), |i: int| pending[i].1)
}

impl Assembly {
    spec fn progress(self) -> Progress {
        Progress {
            meta: match self.meta {
                Some(m) => Some(m@),
                None => None,
            },
            filter: match self.filter {
                Some(f) => Some(f@),
                None => None,
            },
            zoom_path: match self.zoom_path {
                Some(z) => Some(text::texts(z@)),
                None => None,
            },
            tree: match self.tree {
                Some(t) => Some(t@.data(t@.root->0)),
                None => None,
            },
            open: counts(self.pending@),
            count: self.node_count as nat,
        }
    }

    /// The pending nodes lie on the path of first children.
    spec fn on_spine(t: State, pending: Seq<(NodeId, u32)>) -> bool {
        &&& t.root is Some
        &&& forall|i: int|
            #![trigger pending[i]]
            0 <= i < pending.len() ==> {
                &&& pending[i].0 == t.spine(t.root->0, i as nat)
                &&& t.live(pending[i].0)
                &&& i + 1 < pending.len() ==> t.kids[pending[i].0].len() > 0
            }
    }

    spec fn wf(self) -> bool {
        &&& self.node_count <= MAX_NODES
        &&& self.pending@.len() > 0 ==> self.pending@.last().1 > 0
        &&& match self.tree {
            None => self.pending@.len() == 0 && self.node_count == 0,
            Some(t) => {
                &&& t@.wf()
                &&& t@.numbered()
                &&& t@.nodes.len() == self.node_count
                &&& Assembly::on_spine(t@, self.pending@)
            },
        }
        &&& self.tree is Some ==> self.meta is Some && self.filter is Some && self.zoom_path is Some
        &&& self.zoom_path is Some ==> self.filter is Some && self.meta is Some
        &&& self.filter is Some ==> self.meta is Some
    }

    fn new() -> (r: Self)
        ensures
            r.wf(),
            r.progress() == Progress::start(),
    {
        let r = Assembly {
            meta: None,
            filter: None,
            zoom_path: None,
            tree: None,
            pending: Vec::new(),
            node_count: 0,
        };
        proof {
            assert(counts(r.pending@) =~= Seq::<u32>::empty());
        }
        r
    }

    /// Drops the levels whose children have all been read.
    fn pop_exhausted(pending: &mut Vec<(NodeId, u32)>)
        ensures
            counts(final(pending)@) == snapshot_format::unfinished(counts(old(pending)@)),
            final(pending)@ == old(pending)@.take(final(pending)@.len() as int),
            final(pending)@.len() <= old(pending)@.len(),
            final(pending)@.len() > 0 ==> final(pending)@.last().1 > 0,
    {
        let ghost before = pending@;
        proof {
            assert(before.take(before.len() as int) =~= before);
        }
        while pending.len() > 0 && pending[pending.len() - 1].1 == 0
            invariant
                pending@.len() <= before.len(),
                pending@ == before.take(pending@.len() as int),
                snapshot_format::unfinished(counts(before)) == snapshot_format::unfinished(
                    counts(pending@),
                ),
            decreases pending@.len(),
        {
            let ghost prev = pending@;
            let _ = pending.pop();
            proof {
                assert(counts(prev).drop_last() =~= counts(pending@));
                assert(counts(prev).last() == 0);
                assert(pending@ =~= before.take(pending@.len() as int));
            }
        }
        proof {
            if pending@.len() > 0 {
                assert(counts(pending@).last() == pending@.last().1);
            }
        }
    }

    /// Takes in a node that announces `children` children.
    fn add_node(self, params: NodeParams, children: u32) -> (r: Result<Assembly, SnapshotError>)
        requires
            self.wf(),
            self.node_count < MAX_NODES,
            self.zoom_path is Some,
        ensures
            match self.progress().with_node(params@, children) {
                Ok(st) => r matches Ok(next) && next.wf() && next.progress() == st,
                Err(e) => r == Err::<Assembly, _>(e),
            },
    {
        let ghost st = self.progress();
        let ghost d = params@;
        let mut pending = self.pending;
        let ghost open = counts(pending@);
        match self.tree {
            None => {
                let tree = Tree::with_root(params);
                let ghost t = tree@;
                proof {
                    assert(t.live(0));
                    t.lemma_data(0);
                    assert(t.data(0).kids =~= Seq::<model::DataTree>::empty());
                    assert(t.data(0) == model::data_leaf(d));
                    t.lemma_rose(0);
                    assert(t.rose(0).kids =~= Seq::<model::Rose>::empty());
                    assert(model::stack_order_one(t.rose(0)) =~= Seq::new(
                        1,
                        |i: int| i as NodeId,
                    ));
                    assert(open =~= Seq::<u32>::empty());
                    assert(snapshot_format::unfinished(open) == open);
                }
                if children > 0 {
                    pending.push((0, children));
                }
                proof {
                    assert(children > 0 ==> counts(pending@) =~= open.push(children));
                    assert(t.spine(0, 0) == 0);
                }
                let next = Assembly {
                    meta: self.meta,
                    filter: self.filter,
                    zoom_path: self.zoom_path,
                    tree: Some(tree),
                    pending,
                    node_count: 1,
                };
                Ok(next)
            },
            Some(held) => {
                if pending.len() == 0 {
                    return Err(SnapshotError::MalformedNodeStream("second root node record"));
                }
                let mut tree = held;
                let last: usize = pending.len() - 1;
                let (parent, left) = pending[last];
                let ghost a = tree@;
                let ghost root = a.root->0;
                let ghost old_pending = pending@;
                proof {
                    assert(pending@[last as int].0 == a.spine(root, last as nat));
                    assert forall|j: nat| j < last implies a.live(#[trigger] a.spine(root, j))
                        && a.kids[a.spine(root, j)].len() > 0 by {
                        assert(pending@[j as int].0 == a.spine(root, j));
                    }
                }
                if children > 0 && pending.len() >= MAX_DEPTH {
                    return Err(SnapshotError::DepthCapExceeded);
                }
                let id = tree.add_child(parent, params);
                let ghost b = tree@;
                proof {
                    assert(a.live(id) <==> id < a.nodes.len() && !a.free.contains(id));
                    assert(!a.live(id));
                    assert(a.live(root));
                    a.lemma_added_spine(b, parent, id, d, root, last as nat);
                    a.lemma_added_order(b, parent, id, d, root, last as nat);
                    assert(id == a.nodes.len());
                    assert(model::stack_order_one(b.rose(0)) =~= Seq::new(
                        b.nodes.len(),
                        |i: int| i as NodeId,
                    ));
                    b.lemma_counts();
                    a.lemma_counts();
                    assert(b.depth.dom() =~= a.depth.dom().insert(id));
                }
                pending.set(last, (parent, left - 1));
                proof {
                    assert(counts(pending@) =~= snapshot_format::one_less(open));
                    assert forall|i: int|
                        #![trigger pending@[i]]
                        0 <= i < pending@.len() implies {
                        &&& pending@[i].0 == b.spine(root, i as nat)
                        &&& b.live(pending@[i].0)
                        &&& b.kids[pending@[i].0].len() > 0
                    } by {
                        assert(pending@[i].0 == old_pending[i].0);
                        assert(old_pending[i].0 == a.spine(root, i as nat));
                        a.lemma_added_keeps_spine(
                            b,
                            parent,
                            id,
                            d,
                            root,
                            last as nat,
                            i as nat,
                        );
                        if pending@[i].0 != parent {
                            assert(b.kids[pending@[i].0] == a.kids[pending@[i].0]);
                            assert(i < last);
                        }
                    }
                }
                if children > 0 {
                    let ghost mid = pending@;
                    pending.push((id, children));
                    proof {
                        assert(counts(pending@) =~= snapshot_format::one_less(open).push(children));
                        a.lemma_added_keeps_spine(
                            b,
                            parent,
                            id,
                            d,
                            root,
                            last as nat,
                            (last + 1) as nat,
                        );
                        assert forall|i: int|
                            #![trigger pending@[i]]
                            0 <= i < pending@.len() implies {
                            &&& pending@[i].0 == b.spine(root, i as nat)
                            &&& b.live(pending@[i].0)
                            &&& i + 1 < pending@.len() ==> b.kids[pending@[i].0].len() > 0
                        } by {
                            if i < mid.len() {
                                assert(pending@[i] == mid[i]);
                            }
                        }
                    }
                } else {
                    let ghost mid = pending@;
                    Assembly::pop_exhausted(&mut pending);
                    proof {
                        assert forall|i: int|
                            #![trigger pending@[i]]
                            0 <= i < pending@.len() implies {
                            &&& pending@[i].0 == b.spine(root, i as nat)
                            &&& b.live(pending@[i].0)
                            &&& i + 1 < pending@.len() ==> b.kids[pending@[i].0].len() > 0
                        } by {
                            assert(pending@[i] == mid[i]);
                        }
                    }
                }
                let next = Assembly {
                    meta: self.meta,
                    filter: self.filter,
                    zoom_path: self.zoom_path,
                    tree: Some(tree),
                    pending,
                    node_count: self.node_count + 1,
                };
                Ok(next)
            },
        }
    }

    /// Takes in a record.
    fn take_record(self, tag: u64, body: &[u8], offset: usize) -> (r: Result<
        Assembly,
        SnapshotError,
    >)
        requires
            self.wf(),
        ensures
            match self.progress().with_record(tag, body@, offset) {
                Ok(st) => r matches Ok(next) && next.wf() && next.progress() == st,
                Err(e) => r == Err::<Assembly, _>(e),
            },
    {
        if tag == TAG_META {
            if self.meta.is_some() {
                return Err(SnapshotError::DuplicateRecord("meta"));
            }
            if self.filter.is_some() || self.zoom_path.is_some() || self.tree.is_some() {
                return Err(SnapshotError::MissingRecord("meta before other records"));
            }
            let meta = decode_meta(body, offset)?;
            Ok(Assembly { meta: Some(meta), ..self })
        } else if tag == TAG_FILTER {
            if self.filter.is_some() {
                return Err(SnapshotError::DuplicateRecord("filter"));
            }
            if self.meta.is_none() {
                return Err(SnapshotError::MissingRecord("meta"));
            }
            if self.zoom_path.is_some() || self.tree.is_some() {
                return Err(SnapshotError::MissingRecord("filter before zoom/nodes"));
            }
            let filter = decode_filter(body, offset)?;
            Ok(Assembly { filter: Some(filter), ..self })
        } else if tag == TAG_ZOOM_PATH {
            if self.zoom_path.is_some() {
                return Err(SnapshotError::DuplicateRecord("zoom path"));
            }
            if self.meta.is_none() || self.filter.is_none() {
                return Err(SnapshotError::MissingRecord("meta/filter"));
            }
            if self.tree.is_some() {
                return Err(SnapshotError::MissingRecord("zoom path before nodes"));
            }
            let zoom = decode_zoom_path(body, offset)?;
            Ok(Assembly { zoom_path: Some(zoom), ..self })
        } else if tag == TAG_NODE {
            if self.meta.is_none() || self.filter.is_none() || self.zoom_path.is_none() {
                return Err(SnapshotError::MissingRecord("meta/filter/zoom path"));
            }
            if self.node_count + 1 > MAX_NODES {
                return Err(SnapshotError::NodeCountExceeded { cap: MAX_NODES });
            }
            let (params, children) = decode_node(body, offset)?;
            self.add_node(params, children)
        } else {
            Err(SnapshotError::UnknownRecordType { offset, tag })
        }
    }

    /// The snapshot that the records make up.
    fn finish(self) -> (r: Result<Snapshot, SnapshotError>)
        requires
            self.wf(),
        ensures
            match self.progress().finish() {
                Ok(v) => r matches Ok(s) && s@ == v && s.tree@.wf() && s.tree@.numbered(),
                Err(e) => r == Err::<Snapshot, _>(e),
            },
    {
        if self.pending.len() > 0 {
            return Err(
                SnapshotError::MalformedNodeStream(
                    "node declared more children than the stream provides",
                ),
            );
        }
        match self.tree {
            None => Err(SnapshotError::MissingRecord("node")),
            Some(tree) => Ok(
                Snapshot {
                    tree,
                    filter: self.filter.unwrap(),
                    zoom_path: self.zoom_path.unwrap(),
                    meta: self.meta.unwrap(),
                },
            ),
        }
    }
}

/// Reads a record stream. The nodes build the tree without recursion, and are
/// numbered in the order of their records.
pub fn decode_payload(payload: &[u8]) -> (r: Result<Snapshot, SnapshotError>)
    ensures
        match snapshot_format::snapshot_in(payload@) {
            Ok(v) => r matches Ok(s) && s@ == v && s.tree@.wf() && s.tree@.numbered(),
            Err(e) => r == Err::<Snapshot, _>(e),
        },
{
    let ghost p = payload@;
    let len: usize = payload.len();
    let mut pos: usize = 0;
    let mut parts = Assembly::new();
    proof {
        bytes::lemma_byte_ranges();
    }
    while pos < len
        invariant
            p == payload@,
            len == p.len(),
            pos <= len,
            parts.wf(),
            bytes::byte_range(4) == 0x1_0000_0000,
            snapshot_format::records_from(p, 0, Progress::start())
                == snapshot_format::records_from(p, pos as int, parts.progress()),
        decreases len - pos,
    {
        proof {
            reveal(snapshot_format::records_from);
        }
        let (tag, at) = read_varint(payload, pos)?;
        if len - at < 4 {
            return Err(
                SnapshotError::TruncatedField {
                    record: "record header",
                    offset: pos,
                    field: "length",
                },
            );
        }
        proof {
            bytes::lemma_le_unle(p.subrange(at as int, at + 4));
        }
        let size: u32 = bytes::read_le(payload, at, 4) as u32;
        if size > MAX_RECORD_LEN {
            return Err(
                SnapshotError::RecordTooLarge { offset: pos, len: size, cap: MAX_RECORD_LEN },
            );
        }
        let start: usize = at + 4;
        let remaining: usize = len - start;
        if size as usize > remaining {
            return Err(SnapshotError::RecordOverrun { offset: pos, len: size, remaining });
        }
        let end: usize = start + size as usize;
        let body = slice_subrange(payload, start, end);
        parts = parts.take_record(tag, body, pos)?;
        pos = end;
    }
    proof {
        reveal(snapshot_format::records_from);
    }
    parts.finish()
}

/// The first of the listed nodes that has the name.
pub open spec fn first_named(s: State, ids: Seq<NodeId>, name: Seq<char>) -> Option<NodeId>
    decreases ids.len(),
{
    if ids.len() == 0 {
        None
    } else if s.nodes[ids[0] as int].name@ == name {
        Some(ids[0])
    } else {
        first_named(s, ids.drop_first(), name)
    }
}

/// The node reached from `x` by following child names.
pub open spec fn descend(s: State, x: NodeId, names: Seq<Seq<char>>) -> Option<NodeId>
    decreases names.len(),
{
    if names.len() == 0 {
        Some(x)
    } else {
        match first_named(s, s.kids[x], names[0]) {
            Some(c) => descend(s, c, names.drop_first()),
            None => None,
        }
    }
}

/// The node reached from `root` by following child names.
pub fn follow_names(tree: &Tree, root: NodeId, names: &Vec<String>) -> (r: Option<NodeId>)
    requires
        tree@.links(),
        tree@.live(root),
    ensures
        r == descend(tree@, root, text::texts(names@)),
        r matches Some(id) ==> tree@.live(id),
{
    let ghost s = tree@;
    let ghost parts = text::texts(names@);
    let mut cur: NodeId = root;
    proof {
        assert(parts.skip(0) =~= parts);
    }
    for i in 0..names.len()
        invariant
            s == tree@,
            s.links(),
            s.live(cur),
            parts == text::texts(names@),
            descend(s, root, parts) == descend(s, cur, parts.skip(i as int)),
    {
        proof {
            assert(parts.skip(i as int)[0] == names@[i as int]@);
            assert(parts.skip(i as int).drop_first() =~= parts.skip(i + 1));
        }
        match child_named(tree, cur, &names[i]) {
            Some(child) => {
                cur = child;
            },
            None => {
                return None;
            },
        }
    }
    proof {
        assert(parts.skip(parts.len() as int) =~= Seq::<Seq<char>>::empty());
    }
    Some(cur)
}

/// The first child of `parent` with the name.
pub fn child_named(tree: &Tree, parent: NodeId, name: &String) -> (r: Option<NodeId>)
    requires
        tree@.links(),
        tree@.live(parent),
    ensures
        r == first_named(tree@, tree@.kids[parent], name@),
        r matches Some(id) ==> tree@.live(id) && tree@.kids[parent].contains(id),
{
    let ids = tree.children(parent).collect();
    let ghost s = tree@;
    proof {
        assert(s.node_ok(parent));
        assert(ids@.skip(0) =~= ids@);
    }
    for i in 0..ids.len()
        invariant
            s == tree@,
            s.links(),
            s.live(parent),
            ids@ == s.kids[parent],
            first_named(s, ids@, name@) == first_named(s, ids@.skip(i as int), name@),
    {
        proof {
            assert(s.node_ok(parent));
            assert(s.child_ok(parent, i as int));
            assert(s.node_ok(ids@[i as int]));
            assert(ids@.skip(i as int)[0] == ids@[i as int]);
            assert(ids@.skip(i as int).drop_first() =~= ids@.skip(i + 1));
            assert(s.kids[parent].contains(ids@[i as int]));
        }
        if tree.node(ids[i]).name == *name {
            return Some(ids[i]);
        }
    }
    proof {
        assert(ids@.skip(ids@.len() as int) =~= Seq::<NodeId>::empty());
    }
    None
}

/// What the subtrees of listed nodes hold.
pub open spec fn data_list(s: State, ids: Seq<NodeId>) -> Seq<model::DataTree> {
    Seq::new(ids.len(), |i: int| s.data(ids[i]))
}

proof fn lemma_forest_one(s: State, x: NodeId)
    ensures
        snapshot_format::forest_records(data_list(s, seq![x])) == snapshot_format::tree_records(
            s.data(x),
        ),
        forall|at: nat|
            snapshot_format::forest_overflow(data_list(s, seq![x]), at)
                == #[trigger] snapshot_format::tree_overflow(s.data(x), at),
{
    let f = data_list(s, seq![x]);
    assert(f.drop_last() =~= Seq::<model::DataTree>::empty());
    assert(f.last() == s.data(x));
    assert(snapshot_format::forest_records(f.drop_last()) == Seq::<u8>::empty());
    assert(snapshot_format::forest_records(f) =~= snapshot_format::tree_records(s.data(x)));
    assert forall|at: nat|
        snapshot_format::forest_overflow(f, at) == #[trigger] snapshot_format::tree_overflow(
            s.data(x),
            at,
        ) by {
        assert(snapshot_format::forest_overflow(
            f.drop_last(),
            at + snapshot_format::tree_records(f.last()).len(),
        ) is None);
    }
}

proof fn lemma_overflow_concat(a: Seq<model::DataTree>, b: Seq<model::DataTree>, at: nat)
    ensures
        snapshot_format::forest_overflow(a + b, at) == match snapshot_format::forest_overflow(
            b,
            at,
        ) {
            Some(pos) => Some(pos),
            None => snapshot_format::forest_overflow(
                a,
                at + snapshot_format::forest_records(b).len(),
            ),
        },
    decreases b.len(),
{
    if b.len() == 0 {
        assert(a + b =~= a);
        assert(snapshot_format::forest_records(b).len() == 0);
    } else {
        let last = snapshot_format::tree_records(b.last()).len();
        assert((a + b).drop_last() =~= a + b.drop_last());
        assert((a + b).last() == b.last());
        lemma_overflow_concat(a, b.drop_last(), at + last);
        assert(snapshot_format::forest_records(b).len() == last + snapshot_format::forest_records(
            b.drop_last(),
        ).len());
    }
}

proof fn lemma_overflow_step(s: State, rest: Seq<NodeId>, x: NodeId, at: nat)
    requires
        s.links(),
        s.live(x),
    ensures
        ({
            let body = snapshot_format::node_body(s.nodes[x as int]@, s.kids[x].len());
            snapshot_format::forest_overflow(data_list(s, rest.push(x)), at) == if body.len()
                > u32::MAX {
                Some(at)
            } else {
                snapshot_format::forest_overflow(
                    data_list(s, rest + s.kids[x]),
                    at + snapshot_format::record(TAG_NODE, body).len(),
                )
            }
        }),
{
    s.lemma_data(x);
    let ks = s.kids[x];
    let body = snapshot_format::node_body(s.nodes[x as int]@, ks.len());
    let rec = snapshot_format::record(TAG_NODE, body);
    let all = data_list(s, rest.push(x));
    assert(all.drop_last() =~= data_list(s, rest));
    assert(all.last() == s.data(x));
    assert(s.data(x).kids =~= data_list(s, ks));
    assert(data_list(s, rest + ks) =~= data_list(s, rest) + data_list(s, ks));
    assert(snapshot_format::tree_records(s.data(x)) == rec + snapshot_format::forest_records(
        data_list(s, ks),
    ));
    lemma_overflow_concat(data_list(s, rest), data_list(s, ks), at + rec.len());
    assert(snapshot_format::tree_overflow(s.data(x), at) == if body.len() > u32::MAX {
        Some(at)
    } else {
        snapshot_format::forest_overflow(data_list(s, ks), at + rec.len())
    });
    assert(at + snapshot_format::tree_records(s.data(x)).len() == at + rec.len()
        + snapshot_format::forest_records(data_list(s, ks)).len());
}

proof fn lemma_forest_concat(a: Seq<model::DataTree>, b: Seq<model::DataTree>)
    ensures
        snapshot_format::forest_records(a + b) == snapshot_format::forest_records(b)
            + snapshot_format::forest_records(a),
    decreases b.len(),
{
    if b.len() == 0 {
        assert(a + b =~= a);
        assert(snapshot_format::forest_records(b) =~= Seq::<u8>::empty());
    } else {
        assert((a + b).drop_last() =~= a + b.drop_last());
        assert((a + b).last() == b.last());
        lemma_forest_concat(a, b.drop_last());
    }
}

proof fn lemma_forest_step(s: State, rest: Seq<NodeId>, x: NodeId)
    requires
        s.links(),
        s.live(x),
    ensures
        snapshot_format::forest_records(data_list(s, rest.push(x))) == snapshot_format::record(
            TAG_NODE,
            snapshot_format::node_body(s.nodes[x as int]@, s.kids[x].len()),
        ) + snapshot_format::forest_records(data_list(s, rest + s.kids[x])),
{
    s.lemma_data(x);
    let ks = s.kids[x];
    let all = data_list(s, rest.push(x));
    assert(all.drop_last() =~= data_list(s, rest));
    assert(all.last() == s.data(x));
    assert(s.data(x).kids =~= data_list(s, ks));
    assert(data_list(s, rest + ks) =~= data_list(s, rest) + data_list(s, ks));
    lemma_forest_concat(data_list(s, rest), data_list(s, ks));
    let rec = snapshot_format::record(
        TAG_NODE,
        snapshot_format::node_body(s.nodes[x as int]@, ks.len()),
    );
    assert(snapshot_format::tree_records(s.data(x)) == rec + snapshot_format::forest_records(
        data_list(s, ks),
    ));
    assert(snapshot_format::forest_records(all) =~= rec + snapshot_format::forest_records(
        data_list(s, rest + ks),
    ));
}

proof fn lemma_stack_shrinks(s: State, rest: Seq<NodeId>, x: NodeId)
    requires
        s.links(),
        s.live(x),
    ensures
        model::stack_order(s.roses(rest + s.kids[x])).len() < model::stack_order(
            s.roses(rest.push(x)),
        ).len(),
{
    let ks = s.kids[x];
    s.lemma_rose(x);
    let all = s.roses(rest.push(x));
    assert(all.drop_last() =~= s.roses(rest));
    assert(all.last() == s.rose(x));
    assert(s.roses(rest + ks) =~= s.roses(rest) + s.roses(ks));
    model::lemma_stack_concat(s.roses(rest), s.roses(ks));
    assert(model::stack_order_one(s.rose(x)) == seq![x] + model::stack_order(s.roses(ks)));
}

/// A path of names leads to the node itself if it is empty, and otherwise on from
/// the first child of the first name; without such a child it leads nowhere.
pub proof fn law_descend(s: State, x: NodeId, name: Seq<char>, rest: Seq<Seq<char>>, k: int)
    requires
        0 <= k <= s.kids[x].len(),
        forall|i: int|
            0 <= i < k ==> s.nodes[#[trigger] s.kids[x][i] as int].name@ != name,
        k < s.kids[x].len() ==> s.nodes[s.kids[x][k] as int].name@ == name,
    ensures
        descend(s, x, Seq::empty()) == Some(x),
        k < s.kids[x].len() ==> descend(s, x, seq![name] + rest) == descend(
            s,
            s.kids[x][k],
            rest,
        ),
        k == s.kids[x].len() ==> descend(s, x, seq![name] + rest) is None,
{
    lemma_first_named(s, s.kids[x], name, k);
    assert((seq![name] + rest).drop_first() =~= rest);
    assert((seq![name] + rest)[0] == name);
}

/// Which of some nodes is the first with a name.
pub proof fn lemma_first_named(s: State, ids: Seq<NodeId>, name: Seq<char>, k: int)
    requires
        0 <= k <= ids.len(),
        forall|i: int| 0 <= i < k ==> s.nodes[#[trigger] ids[i] as int].name@ != name,
        k < ids.len() ==> s.nodes[ids[k] as int].name@ == name,
    ensures
        first_named(s, ids, name) == (if k < ids.len() {
            Some(ids[k])
        } else {
            None
        }),
    decreases ids.len(),
{
    if k > 0 {
        let rest = ids.drop_first();
        assert forall|i: int| 0 <= i < k - 1 implies s.nodes[#[trigger] rest[i] as int].name@
            != name by {
            assert(rest[i] == ids[i + 1]);
        }
        lemma_first_named(s, rest, name, k - 1);
    }
}

} // verus!
