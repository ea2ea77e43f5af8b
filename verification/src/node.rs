//! Node kinds, tags, flags and the nodes themselves.

use vstd::prelude::*;

use crate::{FileTime, NodeId};

verus! {

/// What a node represents.
#[derive(Clone, Copy, PartialEq, Eq, Debug, Structural)]
pub enum NodeKind {
    File,
    Directory,
    /// Alternate data stream attached to a host file.
    Ads,
    /// Free-space pseudo element of a drive root view.
    FreeSpace,
    /// Not-yet-scanned pseudo element of a running scan.
    UnknownSpace,
    /// Subtree that could not be read.
    Unaccessible,
}

impl Default for NodeKind {
    fn default() -> (kind: Self)
        ensures
            kind == NodeKind::File,
    {
        NodeKind::File
    }
}

/// Tag colours.
#[derive(Clone, Copy, PartialEq, Eq, Debug, Structural)]
pub enum Tag {
    Red,
    Yellow,
    Green,
    Blue,
}

/// File attribute bits and internal marks.
#[derive(Clone, Copy, PartialEq, Eq, Debug, Structural)]
pub struct NodeFlags(pub u32);

impl Default for NodeFlags {
    fn default() -> (flags: Self)
        ensures
            flags == NodeFlags(0),
    {
        NodeFlags(0)
    }
}

impl NodeFlags {
    pub const ARCHIVE: u32 = 0x1;
    pub const SYSTEM: u32 = 0x2;
    pub const READONLY: u32 = 0x4;
    pub const HIDDEN: u32 = 0x8;
    pub const COMPRESSED: u32 = 0x10;
    pub const ENCRYPTED: u32 = 0x20;
    pub const OFFLINE: u32 = 0x40;
    pub const TEMPORARY: u32 = 0x80;
    pub const NOT_INDEXED: u32 = 0x100;
    pub const SPARSE: u32 = 0x200;
    pub const ADS: u32 = 0x400;
    pub const REPARSE_POINT: u32 = 0x1_0000;
    pub const CLOUD_PLACEHOLDER: u32 = 0x2_0000;
    pub const ACCESS_DENIED: u32 = 0x4_0000;
    pub const HARDLINK_ALIAS: u32 = 0x8_0000;

    /// Whether every bit of `other` is set.
    pub open spec fn has(self, other: NodeFlags) -> bool {
        self.0 & other.0 == other.0
    }

    /// Whether every bit of `other` is set.
    pub fn contains(self, other: NodeFlags) -> (r: bool)
        ensures
            r == self.has(other),
    {
        self.0 & other.0 == other.0
    }

    /// Sets every bit of `other`.
    pub fn insert(&mut self, other: NodeFlags)
        ensures
            final(self).0 == old(self).0 | other.0,
            final(self).has(other),
            forall|f: NodeFlags| #[trigger] old(self).has(f) ==> final(self).has(f),
    {
        let a: u32 = self.0;
        let b: u32 = other.0;
        self.0 = a | b;
        proof {
            assert((a | b) & b == b) by (bit_vector);
            assert forall|f: NodeFlags| #[trigger] old(self).has(f) implies self.has(f) by {
                let c: u32 = f.0;
                assert(a & c == c ==> (a | b) & c == c) by (bit_vector);
            }
        }
    }
}

/// What a node holds besides its links and aggregates.
#[verifier::ext_equal]
pub struct NodeData {
    pub name: Seq<char>,
    pub kind: NodeKind,
    pub flags: NodeFlags,
    pub tag: Option<Tag>,
    pub logical_size: u64,
    pub allocated_size: u64,
    pub ads_size: u64,
    pub created: FileTime,
    pub accessed: FileTime,
    pub modified: FileTime,
}

/// Parameters for adding a node to a tree.
#[derive(Debug)]
pub struct NodeParams {
    pub name: String,
    pub kind: NodeKind,
    pub flags: NodeFlags,
    pub tag: Option<Tag>,
    pub logical_size: u64,
    pub allocated_size: u64,
    pub ads_size: u64,
    pub created: FileTime,
    pub accessed: FileTime,
    pub modified: FileTime,
}

impl View for NodeParams {
    type V = NodeData;

    open spec fn view(&self) -> NodeData {
        NodeData {
            name: self.name@,
            kind: self.kind,
            flags: self.flags,
            tag: self.tag,
            logical_size: self.logical_size,
            allocated_size: self.allocated_size,
            ads_size: self.ads_size,
            created: self.created,
            accessed: self.accessed,
            modified: self.modified,
        }
    }
}

impl Default for NodeParams {
    fn default() -> (params: Self)
        ensures
            params@ == NodeParams::blank(Seq::empty(), NodeKind::File),
    {
        NodeParams {
            name: String::new(),
            kind: NodeKind::File,
            flags: NodeFlags(0),
            tag: None,
            logical_size: 0,
            allocated_size: 0,
            ads_size: 0,
            created: 0,
            accessed: 0,
            modified: 0,
        }
    }
}

impl Clone for NodeParams {
    fn clone(&self) -> (params: Self)
        ensures
            params@ == self@,
    {
        NodeParams {
            name: self.name.clone(),
            kind: self.kind,
            flags: self.flags,
            tag: self.tag,
            logical_size: self.logical_size,
            allocated_size: self.allocated_size,
            ads_size: self.ads_size,
            created: self.created,
            accessed: self.accessed,
            modified: self.modified,
        }
    }
}

impl NodeParams {
    /// A node of the given name and kind with no sizes, times, flags or tag.
    pub open spec fn blank(name: Seq<char>, kind: NodeKind) -> NodeData {
        NodeData {
            name,
            kind,
            flags: NodeFlags(0),
            tag: None,
            logical_size: 0,
            allocated_size: 0,
            ads_size: 0,
            created: 0,
            accessed: 0,
            modified: 0,
        }
    }

    pub fn named(name: &str, kind: NodeKind) -> (params: Self)
        ensures
            params@ == NodeParams::blank(name@, kind),
    {
        NodeParams {
            name: name.to_owned(),
            kind,
            flags: NodeFlags(0),
            tag: None,
            logical_size: 0,
            allocated_size: 0,
            ads_size: 0,
            created: 0,
            accessed: 0,
            modified: 0,
        }
    }

    pub fn sizes(self, logical: u64, allocated: u64) -> (params: Self)
        ensures
            params@ == (NodeData { logical_size: logical, allocated_size: allocated, ..self@ }),
    {
        NodeParams { logical_size: logical, allocated_size: allocated, ..self }
    }

    pub fn flags(self, flags: NodeFlags) -> (params: Self)
        ensures
            params@ == (NodeData { flags, ..self@ }),
    {
        NodeParams { flags, ..self }
    }

    pub fn modified(self, modified: FileTime) -> (params: Self)
        ensures
            params@ == (NodeData { modified, ..self@ }),
    {
        NodeParams { modified, ..self }
    }
}

/// A tree node. Own sizes are the element's own bytes; the `agg_*` fields cover
/// the node and everything below it.
#[derive(Debug)]
pub struct Node {
    pub parent: Option<NodeId>,
    pub first_child: Option<NodeId>,
    pub next_sibling: Option<NodeId>,
    pub name: String,
    pub kind: NodeKind,
    pub flags: NodeFlags,
    pub tag: Option<Tag>,
    pub logical_size: u64,
    pub allocated_size: u64,
    pub ads_size: u64,
    pub agg_logical: u64,
    pub agg_allocated: u64,
    pub agg_files: u64,
    pub agg_dirs: u64,
    pub created: FileTime,
    pub accessed: FileTime,
    pub modified: FileTime,
}

impl View for Node {
    type V = NodeData;

    open spec fn view(&self) -> NodeData {
        NodeData {
            name: self.name@,
            kind: self.kind,
            flags: self.flags,
            tag: self.tag,
            logical_size: self.logical_size,
            allocated_size: self.allocated_size,
            ads_size: self.ads_size,
            created: self.created,
            accessed: self.accessed,
            modified: self.modified,
        }
    }
}

/// The four quantities a tree sums up.
#[derive(Clone, Copy, PartialEq, Eq, Debug, Structural)]
pub enum Measure {
    Logical,
    Allocated,
    Files,
    Dirs,
}

/// What a node by itself contributes to a quantity. Alternate data streams
/// count towards the allocated size.
pub open spec fn own_amount(d: NodeData, m: Measure) -> int {
    match m {
        Measure::Logical => d.logical_size as int,
        Measure::Allocated => d.allocated_size + d.ads_size,
        Measure::Files => if d.kind == NodeKind::File || d.kind == NodeKind::Ads { 1 } else { 0 },
        Measure::Dirs => if d.kind == NodeKind::Directory { 1 } else { 0 },
    }
}

/// Reduces a sum to what a 64-bit counter holds of it.
pub open spec fn wrap64(i: int) -> int {
    i % 0x1_0000_0000_0000_0000
}

impl Node {
    /// What the node's aggregate field of a quantity holds.
    pub open spec fn agg(self, m: Measure) -> u64 {
        match m {
            Measure::Logical => self.agg_logical,
            Measure::Allocated => self.agg_allocated,
            Measure::Files => self.agg_files,
            Measure::Dirs => self.agg_dirs,
        }
    }

    /// Whether `other` is this node but for the aggregates.
    pub open spec fn same_but_agg(self, other: Node) -> bool {
        &&& self.parent == other.parent
        &&& self.first_child == other.first_child
        &&& self.next_sibling == other.next_sibling
        &&& self.same_data(other)
    }

    /// Whether `other` holds the same data, whatever its links and aggregates.
    pub open spec fn same_data(self, other: Node) -> bool {
        &&& self.name == other.name
        &&& self.kind == other.kind
        &&& self.flags == other.flags
        &&& self.tag == other.tag
        &&& self.logical_size == other.logical_size
        &&& self.allocated_size == other.allocated_size
        &&& self.ads_size == other.ads_size
        &&& self.created == other.created
        &&& self.accessed == other.accessed
        &&& self.modified == other.modified
    }

    /// An unlinked node whose aggregates count itself only.
    pub(crate) fn from_params(params: NodeParams) -> (node: Node)
        ensures
            node@ == params@,
            node.parent is None,
            node.first_child is None,
            node.next_sibling is None,
            forall|m: Measure| #[trigger] node.agg(m) == wrap64(own_amount(params@, m)),
    {
        let files: u64 = match params.kind {
            NodeKind::File | NodeKind::Ads => 1,
            _ => 0,
        };
        let dirs: u64 = if params.kind == NodeKind::Directory { 1 } else { 0 };
        let node = Node {
            parent: None,
            first_child: None,
            next_sibling: None,
            agg_logical: params.logical_size,
            agg_allocated: params.allocated_size.wrapping_add(params.ads_size),
            agg_files: files,
            agg_dirs: dirs,
            name: params.name,
            kind: params.kind,
            flags: params.flags,
            tag: params.tag,
            logical_size: params.logical_size,
            allocated_size: params.allocated_size,
            ads_size: params.ads_size,
            created: params.created,
            accessed: params.accessed,
            modified: params.modified,
        };
        proof {
            assert forall|m: Measure| #[trigger] node.agg(m) == wrap64(own_amount(params@, m)) by {
                match m {
                    Measure::Logical => {},
                    Measure::Allocated => {},
                    Measure::Files => {},
                    Measure::Dirs => {},
                }
            }
        }
        node
    }

    pub fn is_dir(&self) -> (r: bool)
        ensures
            r == (self.kind == NodeKind::Directory),
    {
        self.kind == NodeKind::Directory
    }
}

impl Clone for Node {
    fn clone(&self) -> (node: Self)
        ensures
            node == *self,
    {
        Node {
            parent: self.parent,
            first_child: self.first_child,
            next_sibling: self.next_sibling,
            name: self.name.clone(),
            kind: self.kind,
            flags: self.flags,
            tag: self.tag,
            logical_size: self.logical_size,
            allocated_size: self.allocated_size,
            ads_size: self.ads_size,
            agg_logical: self.agg_logical,
            agg_allocated: self.agg_allocated,
            agg_files: self.agg_files,
            agg_dirs: self.agg_dirs,
            created: self.created,
            accessed: self.accessed,
            modified: self.modified,
        }
    }
}

/// What a node adds to the totals of the nodes above it: its logical size; its
/// allocated size and that of its streams; one file if it is a file or a stream,
/// and one folder if it is a folder.
pub proof fn law_own_amounts(d: NodeData)
    ensures
        own_amount(d, Measure::Logical) == d.logical_size,
        own_amount(d, Measure::Allocated) == d.allocated_size + d.ads_size,
        d.kind == NodeKind::File || d.kind == NodeKind::Ads ==> own_amount(d, Measure::Files) == 1
            && own_amount(d, Measure::Dirs) == 0,
        d.kind == NodeKind::Directory ==> own_amount(d, Measure::Files) == 0 && own_amount(
            d,
            Measure::Dirs,
        ) == 1,
        d.kind != NodeKind::File && d.kind != NodeKind::Ads && d.kind != NodeKind::Directory
            ==> own_amount(d, Measure::Files) == 0 && own_amount(d, Measure::Dirs) == 0,
{
}

/// Each measure of a subtree stands in the field of its name.
pub proof fn law_aggregates(n: Node)
    ensures
        n.agg(Measure::Logical) == n.agg_logical,
        n.agg(Measure::Allocated) == n.agg_allocated,
        n.agg(Measure::Files) == n.agg_files,
        n.agg(Measure::Dirs) == n.agg_dirs,
{
}

/// A node and what it is made from hold each value under its own name.
pub proof fn law_values_keep_their_names(n: Node, p: NodeParams)
    ensures
        n@.name == n.name@,
        n@.kind == n.kind,
        n@.flags == n.flags,
        n@.tag == n.tag,
        n@.logical_size == n.logical_size,
        n@.allocated_size == n.allocated_size,
        n@.ads_size == n.ads_size,
        n@.created == n.created,
        n@.accessed == n.accessed,
        n@.modified == n.modified,
        p@.name == p.name@,
        p@.kind == p.kind,
        p@.flags == p.flags,
        p@.tag == p.tag,
        p@.logical_size == p.logical_size,
        p@.allocated_size == p.allocated_size,
        p@.ads_size == p.ads_size,
        p@.created == p.created,
        p@.accessed == p.accessed,
        p@.modified == p.modified,
{
}

/// Each flag is a bit of its own.
pub proof fn law_flag_bits(flags: NodeFlags)
    ensures
        flags.has(NodeFlags(NodeFlags::ARCHIVE)) <==> flags.0 & 0x1 == 0x1,
        flags.has(NodeFlags(NodeFlags::SYSTEM)) <==> flags.0 & 0x2 == 0x2,
        flags.has(NodeFlags(NodeFlags::READONLY)) <==> flags.0 & 0x4 == 0x4,
        flags.has(NodeFlags(NodeFlags::HIDDEN)) <==> flags.0 & 0x8 == 0x8,
        flags.has(NodeFlags(NodeFlags::COMPRESSED)) <==> flags.0 & 0x10 == 0x10,
        flags.has(NodeFlags(NodeFlags::ENCRYPTED)) <==> flags.0 & 0x20 == 0x20,
        flags.has(NodeFlags(NodeFlags::OFFLINE)) <==> flags.0 & 0x40 == 0x40,
        flags.has(NodeFlags(NodeFlags::TEMPORARY)) <==> flags.0 & 0x80 == 0x80,
        flags.has(NodeFlags(NodeFlags::NOT_INDEXED)) <==> flags.0 & 0x100 == 0x100,
        flags.has(NodeFlags(NodeFlags::SPARSE)) <==> flags.0 & 0x200 == 0x200,
        flags.has(NodeFlags(NodeFlags::ADS)) <==> flags.0 & 0x400 == 0x400,
        flags.has(NodeFlags(NodeFlags::REPARSE_POINT)) <==> flags.0 & 0x1_0000 == 0x1_0000,
        flags.has(NodeFlags(NodeFlags::CLOUD_PLACEHOLDER)) <==> flags.0 & 0x2_0000 == 0x2_0000,
        flags.has(NodeFlags(NodeFlags::ACCESS_DENIED)) <==> flags.0 & 0x4_0000 == 0x4_0000,
        flags.has(NodeFlags(NodeFlags::HARDLINK_ALIAS)) <==> flags.0 & 0x8_0000 == 0x8_0000,
{
}

} // verus!
