//! Laws of the snapshot format: what is saved is what is loaded, and a file
//! that was cut short or added to is refused.

use vstd::prelude::*;

use crate::model::{DataTree, State};
use crate::node::NodeData;
use crate::snapshot_format::{
    Layout, MetaView, Progress, SnapshotError, SnapshotView, Source, MAX_DEPTH, MAX_NAME_LEN,
    MAX_NODES, MAX_PAYLOAD_LEN, MAX_RECORD_LEN, MAX_STRING_LEN, MAX_ZOOM_COMPONENTS, TAG_FILTER,
    TAG_META, TAG_NODE, TAG_ZOOM_PATH,
};
use crate::NodeId;
use crate::{bytes, model, snapshot, snapshot_format};

verus! {

/// The number of nodes of a tree.
pub open spec fn tree_size(t: DataTree) -> nat
    decreases t,
{
    1 + forest_size(t.kids)
}

/// The number of nodes of siblings and what is below them.
pub open spec fn forest_size(ts: Seq<DataTree>) -> nat
    decreases ts,
{
    if ts.len() == 0 {
        0
    } else {
        tree_size(ts.last()) + forest_size(ts.drop_last())
    }
}

/// Whether a tree at a depth keeps to the caps on names and nesting.
pub open spec fn tree_fits(t: DataTree, depth: nat) -> bool
    decreases t,
{
    &&& snapshot_format::utf8(t.data.name).len() <= MAX_NAME_LEN
    &&& t.kids.len() <= u32::MAX
    &&& t.kids.len() > 0 ==> depth < MAX_DEPTH
    &&& forest_fits(t.kids, depth + 1)
}

/// Whether siblings at a depth keep to the caps on names and nesting.
pub open spec fn forest_fits(ts: Seq<DataTree>, depth: nat) -> bool
    decreases ts,
{
    ts.len() > 0 ==> tree_fits(ts.last(), depth) && forest_fits(ts.drop_last(), depth)
}

/// Whether a snapshot keeps to the caps of the format.
pub open spec fn fits(v: SnapshotView) -> bool {
    &&& v.tree matches Some(t) && tree_fits(t, 0) && tree_size(t) <= MAX_NODES
        && (snapshot_format::preamble(v) + snapshot_format::tree_records(t)).len()
        <= MAX_PAYLOAD_LEN
    &&& snapshot_format::utf8(v.meta.tool_version).len() <= MAX_STRING_LEN
    &&& snapshot_format::utf8(v.filter).len() <= MAX_STRING_LEN
    &&& v.zoom_path.len() <= MAX_ZOOM_COMPONENTS
    &&& snapshot_format::zoom_body(v.zoom_path).len() <= MAX_RECORD_LEN
    &&& forall|i: int|
        0 <= i < v.zoom_path.len() ==> snapshot_format::utf8(#[trigger] v.zoom_path[i]).len()
            <= MAX_NAME_LEN
}

/// Whether `x` stands at `pos` in `p`.
pub open spec fn stands(p: Seq<u8>, pos: int, x: Seq<u8>) -> bool {
    0 <= pos && pos + x.len() <= p.len() && p.subrange(pos, pos + x.len()) == x
}

proof fn lemma_stands_split(p: Seq<u8>, pos: int, a: Seq<u8>, b: Seq<u8>)
    requires
        stands(p, pos, a + b),
    ensures
        stands(p, pos, a),
        stands(p, pos + a.len(), b),
{
    let whole = p.subrange(pos, pos + (a + b).len());
    assert(p.subrange(pos, pos + a.len()) =~= whole.subrange(0, a.len() as int));
    assert(whole.subrange(0, a.len() as int) =~= a);
    assert(p.subrange(pos + a.len(), pos + a.len() + b.len()) =~= whole.subrange(
        a.len() as int,
        (a + b).len() as int,
    ));
    assert(whole.subrange(a.len() as int, (a + b).len() as int) =~= b);
}

proof fn lemma_stands_self(x: Seq<u8>)
    ensures
        stands(x, 0, x),
{
    assert(x.subrange(0, x.len() as int) =~= x);
}

proof fn lemma_num(src: Source, body: Seq<u8>, pos: int, width: nat, field: &'static str, n: nat)
    requires
        n < bytes::byte_range(width),
        stands(body, pos, bytes::le(n, width)),
    ensures
        snapshot_format::num_at(src, body, pos, width, field) == Ok::<_, SnapshotError>(
            (n, pos + width),
        ),
{
    bytes::lemma_le_len(n, width);
    bytes::lemma_unle_le(n, width);
}

proof fn lemma_text(
    src: Source,
    body: Seq<u8>,
    pos: int,
    field: &'static str,
    cap: usize,
    s: Seq<char>,
)
    requires
        snapshot_format::utf8(s).len() <= cap,
        cap <= u32::MAX,
        stands(body, pos, snapshot_format::text_field(s)),
    ensures
        snapshot_format::text_at(src, body, pos, field, cap) == Ok::<_, SnapshotError>(
            (s, pos + snapshot_format::text_field(s).len()),
        ),
        snapshot_format::text_field(s).len() == 4 + snapshot_format::utf8(s).len(),
{
    let raw = snapshot_format::utf8(s);
    bytes::lemma_byte_ranges();
    bytes::lemma_le_len(raw.len(), 4);
    lemma_stands_split(body, pos, bytes::le(raw.len(), 4), raw);
    lemma_num(src, body, pos, 4, field, raw.len());
    vstd::utf8::encode_utf8_valid_utf8(s);
    vstd::utf8::encode_utf8_decode_utf8(s);
}

proof fn lemma_bits(x: i64)
    ensures
        bytes::signed_of(bytes::bits_of(x) as nat) == x,
{
}

/// A record is read as it was written.
proof fn lemma_record(p: Seq<u8>, pos: int, tag: u64, body: Seq<u8>)
    requires
        tag < 128,
        body.len() <= MAX_RECORD_LEN,
        p.len() <= MAX_PAYLOAD_LEN,
        stands(p, pos, snapshot_format::record(tag, body)),
    ensures
        snapshot_format::record_at(p, pos) == Ok::<_, SnapshotError>(
            (tag, body, pos + snapshot_format::record(tag, body).len()),
        ),
        snapshot_format::record(tag, body).len() == 5 + body.len(),
{
    let t = snapshot_format::varint(tag as nat);
    let l = bytes::le(body.len(), 4);
    bytes::lemma_byte_ranges();
    bytes::lemma_le_len(body.len(), 4);
    bytes::lemma_unle_le(body.len(), 4);
    lemma_stands_split(p, pos, t + l, body);
    lemma_stands_split(p, pos, t, l);
    assert(t =~= seq![tag as u8]);
    assert(p.subrange(pos, pos + 1)[0] == tag as u8);
    assert(p[pos] == tag as u8);
    assert(snapshot_format::varint_at(p, pos, 0) == Some((tag as nat, pos + 1)));
    assert(p.subrange(pos + 1, pos + 5) == l);
}

/// Reading one record moves on to the next.
proof fn lemma_next(p: Seq<u8>, pos: int, st: Progress, tag: u64, body: Seq<u8>, st2: Progress)
    requires
        tag < 128,
        body.len() <= MAX_RECORD_LEN,
        p.len() <= MAX_PAYLOAD_LEN,
        stands(p, pos, snapshot_format::record(tag, body)),
        st.with_record(tag, body, pos as usize) == Ok::<_, SnapshotError>(st2),
    ensures
        snapshot_format::records_from(p, pos, st) == snapshot_format::records_from(
            p,
            pos + snapshot_format::record(tag, body).len(),
            st2,
        ),
{
    reveal(snapshot_format::records_from);
    lemma_record(p, pos, tag, body);
}

proof fn lemma_meta(m: MetaView, offset: usize)
    requires
        snapshot_format::utf8(m.tool_version).len() <= MAX_STRING_LEN,
    ensures
        snapshot_format::meta_at(snapshot_format::meta_body(m), offset) == Ok::<_, SnapshotError>(
            m,
        ),
        snapshot_format::meta_body(m).len() == snapshot_format::utf8(m.tool_version).len() + 28,
{
    let src = Source { record: "meta", offset };
    let body = snapshot_format::meta_body(m);
    let a = snapshot_format::text_field(m.tool_version);
    let b = bytes::le(m.volume_serial as nat, 8);
    let c = bytes::le(bytes::bits_of(m.started) as nat, 8);
    let d = bytes::le(bytes::bits_of(m.finished) as nat, 8);
    bytes::lemma_byte_ranges();
    bytes::lemma_le_len(m.volume_serial as nat, 8);
    bytes::lemma_le_len(bytes::bits_of(m.started) as nat, 8);
    bytes::lemma_le_len(bytes::bits_of(m.finished) as nat, 8);
    lemma_stands_self(body);
    lemma_stands_split(body, 0, a + b + c, d);
    lemma_stands_split(body, 0, a + b, c);
    lemma_stands_split(body, 0, a, b);
    lemma_text(src, body, 0, "tool_version", MAX_STRING_LEN, m.tool_version);
    lemma_num(src, body, a.len() as int, 8, "volume_serial", m.volume_serial as nat);
    lemma_num(src, body, (a.len() + 8) as int, 8, "started", bytes::bits_of(m.started) as nat);
    lemma_num(src, body, (a.len() + 16) as int, 8, "finished", bytes::bits_of(m.finished) as nat);
    lemma_bits(m.started);
    lemma_bits(m.finished);
}

proof fn lemma_filter(f: Seq<char>, offset: usize)
    requires
        snapshot_format::utf8(f).len() <= MAX_STRING_LEN,
    ensures
        snapshot_format::filter_at(snapshot_format::text_field(f), offset) == Ok::<
            _,
            SnapshotError,
        >(f),
        snapshot_format::text_field(f).len() == snapshot_format::utf8(f).len() + 4,
{
    let src = Source { record: "filter", offset };
    let body = snapshot_format::text_field(f);
    lemma_stands_self(body);
    lemma_text(src, body, 0, "filter", MAX_STRING_LEN, f);
}

/// Text fields can be read from the front.
proof fn lemma_fields_front(first: Seq<char>, rest: Seq<Seq<char>>)
    ensures
        snapshot_format::text_fields(seq![first] + rest) == snapshot_format::text_field(first)
            + snapshot_format::text_fields(rest),
    decreases rest.len(),
{
    let all = seq![first] + rest;
    if rest.len() == 0 {
        assert(all.drop_last() =~= Seq::<Seq<char>>::empty());
        assert(snapshot_format::text_fields(all.drop_last()) =~= Seq::<u8>::empty());
        assert(snapshot_format::text_fields(all) =~= snapshot_format::text_field(first)
            + snapshot_format::text_fields(rest));
    } else {
        assert(all.drop_last() =~= seq![first] + rest.drop_last());
        lemma_fields_front(first, rest.drop_last());
        assert(snapshot_format::text_fields(all) =~= snapshot_format::text_field(first)
            + snapshot_format::text_fields(rest));
    }
}

proof fn lemma_components(
    src: Source,
    body: Seq<u8>,
    pos: int,
    read: Seq<Seq<char>>,
    parts: Seq<Seq<char>>,
)
    requires
        stands(body, pos, snapshot_format::text_fields(parts)),
        forall|i: int|
            0 <= i < parts.len() ==> snapshot_format::utf8(#[trigger] parts[i]).len()
                <= MAX_NAME_LEN,
    ensures
        snapshot_format::components_at(src, body, pos, parts.len(), read) == Ok::<
            _,
            SnapshotError,
        >((read + parts, pos + snapshot_format::text_fields(parts).len())),
    decreases parts.len(),
{
    if parts.len() == 0 {
        assert(read + parts =~= read);
    } else {
        let first = parts[0];
        let rest = parts.drop_first();
        assert(parts =~= seq![first] + rest);
        lemma_fields_front(first, rest);
        lemma_stands_split(
            body,
            pos,
            snapshot_format::text_field(first),
            snapshot_format::text_fields(rest),
        );
        lemma_text(src, body, pos, "component", MAX_NAME_LEN, first);
        assert forall|i: int| 0 <= i < rest.len() implies snapshot_format::utf8(
            #[trigger] rest[i],
        ).len() <= MAX_NAME_LEN by {
            assert(rest[i] == parts[i + 1]);
        }
        lemma_components(
            src,
            body,
            pos + snapshot_format::text_field(first).len(),
            read.push(first),
            rest,
        );
        assert(read.push(first) + rest =~= read + parts);
    }
}

proof fn lemma_zoom(parts: Seq<Seq<char>>, offset: usize)
    requires
        parts.len() <= MAX_ZOOM_COMPONENTS,
        forall|i: int|
            0 <= i < parts.len() ==> snapshot_format::utf8(#[trigger] parts[i]).len()
                <= MAX_NAME_LEN,
    ensures
        snapshot_format::zoom_at(snapshot_format::zoom_body(parts), offset) == Ok::<
            _,
            SnapshotError,
        >(parts),
{
    let src = Source { record: "zoom path", offset };
    let body = snapshot_format::zoom_body(parts);
    let n = bytes::le(parts.len(), 4);
    bytes::lemma_byte_ranges();
    bytes::lemma_le_len(parts.len(), 4);
    lemma_stands_self(body);
    lemma_stands_split(body, 0, n, snapshot_format::text_fields(parts));
    lemma_num(src, body, 0, 4, "component_count", parts.len());
    lemma_components(src, body, 4, Seq::empty(), parts);
    assert(Seq::<Seq<char>>::empty() + parts =~= parts);
}

proof fn lemma_mark_bytes(k: u8, t: u8)
    ensures
        seq![k, t, 0u8, 0u8] == bytes::le(k as nat, 1) + bytes::le(t as nat, 1) + bytes::le(0, 2),
        bytes::le(k as nat, 1).len() == 1,
        bytes::le(t as nat, 1).len() == 1,
{
    reveal_with_fuel(bytes::le, 3);
    assert(seq![k, t, 0u8, 0u8] =~= bytes::le(k as nat, 1) + bytes::le(t as nat, 1) + bytes::le(
        0,
        2,
    ));
}

proof fn lemma_node_marks(d: NodeData, children: nat, offset: usize)
    ensures
        snapshot_format::node_marks_at(snapshot_format::node_body(d, children), offset) == Ok::<
            _,
            SnapshotError,
        >((d.kind, d.tag, d.flags)),
{
    let src = Source { record: "node", offset };
    let body = snapshot_format::node_body(d, children);
    let k = snapshot_format::kind_code(d.kind);
    let t = snapshot_format::tag_code(d.tag);
    bytes::lemma_byte_ranges();
    lemma_node_places(d, children);
    lemma_mark_bytes(k, t);
    lemma_stands_split(body, 0, bytes::le(k as nat, 1) + bytes::le(t as nat, 1), bytes::le(0, 2));
    lemma_stands_split(body, 0, bytes::le(k as nat, 1), bytes::le(t as nat, 1));
    lemma_num(src, body, 0, 1, "kind", k as nat);
    lemma_num(src, body, 1, 1, "tag", t as nat);
    lemma_num(src, body, 2, 2, "reserved", 0);
    lemma_num(src, body, 4, 4, "flags", d.flags.0 as nat);
}

/// Where the fields of a node record stand.
proof fn lemma_node_places(d: NodeData, children: nat)
    ensures
        ({
            let body = snapshot_format::node_body(d, children);
            &&& stands(
                body,
                0,
                seq![snapshot_format::kind_code(d.kind), snapshot_format::tag_code(d.tag), 0u8, 0u8],
            )
            &&& stands(body, 4, bytes::le(d.flags.0 as nat, 4))
            &&& stands(body, 8, bytes::le(d.logical_size as nat, 8))
            &&& stands(body, 16, bytes::le(d.allocated_size as nat, 8))
            &&& stands(body, 24, bytes::le(d.ads_size as nat, 8))
            &&& stands(body, 32, bytes::le(bytes::bits_of(d.created) as nat, 8))
            &&& stands(body, 40, bytes::le(bytes::bits_of(d.accessed) as nat, 8))
            &&& stands(body, 48, bytes::le(bytes::bits_of(d.modified) as nat, 8))
            &&& stands(body, 56, bytes::le(children, 4))
            &&& stands(body, 60, snapshot_format::text_field(d.name))
        }),
{
    let body = snapshot_format::node_body(d, children);
    let m = seq![snapshot_format::kind_code(d.kind), snapshot_format::tag_code(d.tag), 0u8, 0u8];
    let f = bytes::le(d.flags.0 as nat, 4);
    let l = bytes::le(d.logical_size as nat, 8);
    let a = bytes::le(d.allocated_size as nat, 8);
    let s = bytes::le(d.ads_size as nat, 8);
    let c = bytes::le(bytes::bits_of(d.created) as nat, 8);
    let x = bytes::le(bytes::bits_of(d.accessed) as nat, 8);
    let o = bytes::le(bytes::bits_of(d.modified) as nat, 8);
    let n = bytes::le(children, 4);
    bytes::lemma_le_len(d.flags.0 as nat, 4);
    bytes::lemma_le_len(d.logical_size as nat, 8);
    bytes::lemma_le_len(d.allocated_size as nat, 8);
    bytes::lemma_le_len(d.ads_size as nat, 8);
    bytes::lemma_le_len(bytes::bits_of(d.created) as nat, 8);
    bytes::lemma_le_len(bytes::bits_of(d.accessed) as nat, 8);
    bytes::lemma_le_len(bytes::bits_of(d.modified) as nat, 8);
    bytes::lemma_le_len(children, 4);
    lemma_stands_self(body);
    lemma_stands_split(
        body,
        0,
        m + f + l + a + s + c + x + o + n,
        snapshot_format::text_field(d.name),
    );
    lemma_stands_split(body, 0, m + f + l + a + s + c + x + o, n);
    lemma_stands_split(body, 0, m + f + l + a + s + c + x, o);
    lemma_stands_split(body, 0, m + f + l + a + s + c, x);
    lemma_stands_split(body, 0, m + f + l + a + s, c);
    lemma_stands_split(body, 0, m + f + l + a, s);
    lemma_stands_split(body, 0, m + f + l, a);
    lemma_stands_split(body, 0, m + f, l);
    lemma_stands_split(body, 0, m, f);
}

proof fn lemma_node(d: NodeData, children: nat, offset: usize)
    requires
        snapshot_format::utf8(d.name).len() <= MAX_NAME_LEN,
        children <= u32::MAX,
    ensures
        snapshot_format::node_at(snapshot_format::node_body(d, children), offset) == Ok::<
            _,
            SnapshotError,
        >((d, children as u32)),
        snapshot_format::node_body(d, children).len() == snapshot_format::utf8(d.name).len() + 64,
{
    let src = Source { record: "node", offset };
    let body = snapshot_format::node_body(d, children);
    bytes::lemma_byte_ranges();
    lemma_node_places(d, children);
    lemma_node_marks(d, children, offset);
    lemma_num(src, body, 8, 8, "logical_size", d.logical_size as nat);
    lemma_num(src, body, 16, 8, "allocated_size", d.allocated_size as nat);
    lemma_num(src, body, 24, 8, "ads_size", d.ads_size as nat);
    lemma_num(src, body, 32, 8, "created", bytes::bits_of(d.created) as nat);
    lemma_num(src, body, 40, 8, "accessed", bytes::bits_of(d.accessed) as nat);
    lemma_num(src, body, 48, 8, "modified", bytes::bits_of(d.modified) as nat);
    lemma_num(src, body, 56, 4, "child_count", children);
    lemma_text(src, body, 60, "name", MAX_NAME_LEN, d.name);
    lemma_bits(d.created);
    lemma_bits(d.accessed);
    lemma_bits(d.modified);
    snapshot::lemma_node_head_len(d, children);
}

/// A tree around a place for a subtree: nothing, or a tree and how many first
/// children lead to the place.
spec fn placed(around: Option<(DataTree, nat)>, a: DataTree) -> DataTree {
    match around {
        None => a,
        Some((t, k)) => model::with_first(t, k, a),
    }
}

spec fn level(around: Option<(DataTree, nat)>) -> nat {
    match around {
        None => 0,
        Some((t, k)) => k + 1,
    }
}

proof fn lemma_place(around: Option<(DataTree, nat)>, a: DataTree, b: DataTree)
    requires
        around matches Some((t, k)) ==> model::has_spine(t, k),
    ensures
        model::with_first(placed(around, a), level(around), b) == placed(
            around,
            DataTree { data: a.data, kids: seq![b] + a.kids },
        ),
        model::has_spine(placed(around, a), level(around)),
{
    if let Some((t, k)) = around {
        model::lemma_first_below_first(t, k, a, b);
    }
}

/// Reading the node records of a tree puts the tree in place.
proof fn lemma_tree(p: Seq<u8>, pos: int, st: Progress, whole: DataTree, t: DataTree)
    requires
        p.len() <= MAX_PAYLOAD_LEN,
        stands(p, pos, snapshot_format::tree_records(t)),
        st.meta is Some && st.filter is Some && st.zoom_path is Some,
        st.tree == Some(whole),
        st.open.len() > 0,
        st.open.last() > 0,
        model::has_spine(whole, (st.open.len() - 1) as nat),
        tree_fits(t, st.open.len()),
        st.count + tree_size(t) <= MAX_NODES,
    ensures
        snapshot_format::records_from(p, pos, st) == snapshot_format::records_from(
            p,
            pos + snapshot_format::tree_records(t).len(),
            Progress {
                tree: Some(model::with_first(whole, (st.open.len() - 1) as nat, t)),
                open: snapshot_format::unfinished(snapshot_format::one_less(st.open)),
                count: st.count + tree_size(t),
                ..st
            },
        ),
    decreases t,
{
    let body = snapshot_format::node_body(t.data, t.kids.len());
    let rec = snapshot_format::record(TAG_NODE, body);
    let k = (st.open.len() - 1) as nat;
    let below = snapshot_format::one_less(st.open);
    let around = Some((whole, k));
    let leaf = model::data_leaf(t.data);
    lemma_node(t.data, t.kids.len(), pos as usize);
    lemma_stands_split(p, pos, rec, snapshot_format::forest_records(t.kids));
    let st2 = Progress {
        tree: Some(placed(around, leaf)),
        open: if t.kids.len() > 0 {
            below.push(t.kids.len() as u32)
        } else {
            snapshot_format::unfinished(below)
        },
        count: st.count + 1,
        ..st
    };
    lemma_next(p, pos, st, TAG_NODE, body, st2);
    lemma_forest(p, pos + rec.len(), st2, around, below, leaf, t.kids);
    assert(t.kids + leaf.kids =~= t.kids);
}

/// Reading the node records of siblings completes their parent.
proof fn lemma_forest(
    p: Seq<u8>,
    pos: int,
    st: Progress,
    around: Option<(DataTree, nat)>,
    below: Seq<u32>,
    a: DataTree,
    ts: Seq<DataTree>,
)
    requires
        p.len() <= MAX_PAYLOAD_LEN,
        stands(p, pos, snapshot_format::forest_records(ts)),
        st.meta is Some && st.filter is Some && st.zoom_path is Some,
        around matches Some((t, k)) ==> model::has_spine(t, k),
        st.tree == Some(placed(around, a)),
        below.len() == level(around),
        ts.len() <= u32::MAX,
        st.open == if ts.len() > 0 {
            below.push(ts.len() as u32)
        } else {
            snapshot_format::unfinished(below)
        },
        forest_fits(ts, below.len() + 1),
        st.count + forest_size(ts) <= MAX_NODES,
    ensures
        snapshot_format::records_from(p, pos, st) == snapshot_format::records_from(
            p,
            pos + snapshot_format::forest_records(ts).len(),
            Progress {
                tree: Some(placed(around, DataTree { data: a.data, kids: ts + a.kids })),
                open: snapshot_format::unfinished(below),
                count: st.count + forest_size(ts),
                ..st
            },
        ),
    decreases ts,
{
    if ts.len() == 0 {
        assert(ts + a.kids =~= a.kids);
        assert(pos + snapshot_format::forest_records(ts).len() == pos);
    } else {
        let last = ts.last();
        let init = ts.drop_last();
        let n = ts.len() as u32;
        lemma_stands_split(
            p,
            pos,
            snapshot_format::tree_records(last),
            snapshot_format::forest_records(init),
        );
        lemma_place(around, a, last);
        let whole = placed(around, a);
        lemma_tree(p, pos, st, whole, last);
        let next = DataTree { data: a.data, kids: seq![last] + a.kids };
        let less = snapshot_format::one_less(st.open);
        assert(less =~= below.push((n - 1) as u32));
        if init.len() == 0 {
            assert(less.drop_last() =~= below);
            assert(snapshot_format::unfinished(less) == snapshot_format::unfinished(below));
        } else {
            assert(less.last() == init.len() as u32);
            assert(snapshot_format::unfinished(less) == less);
        }
        let st2 = Progress {
            tree: Some(placed(around, next)),
            open: snapshot_format::unfinished(less),
            count: st.count + tree_size(last),
            ..st
        };
        lemma_forest(
            p,
            pos + snapshot_format::tree_records(last).len(),
            st2,
            around,
            below,
            next,
            init,
        );
        assert(init + next.kids =~= ts + a.kids);
    }
}

/// What has been read of a snapshot before its nodes.
spec fn before_nodes(v: SnapshotView) -> Progress {
    Progress {
        meta: Some(v.meta),
        filter: Some(v.filter),
        zoom_path: Some(v.zoom_path),
        tree: None,
        open: Seq::empty(),
        count: 0,
    }
}

/// The records before the nodes are read as they were written.
#[verifier::spinoff_prover]
#[verifier::rlimit(40)]
proof fn lemma_preamble(v: SnapshotView, p: Seq<u8>)
    requires
        fits(v),
        p.len() <= MAX_PAYLOAD_LEN,
        stands(p, 0, snapshot_format::preamble(v)),
    ensures
        snapshot_format::records_from(p, 0, Progress::start()) == snapshot_format::records_from(
            p,
            snapshot_format::preamble(v).len() as int,
            before_nodes(v),
        ),
        snapshot_format::meta_body(v.meta).len() <= u32::MAX,
        snapshot_format::text_field(v.filter).len() <= u32::MAX,
{
    let a = snapshot_format::record(TAG_META, snapshot_format::meta_body(v.meta));
    let b = snapshot_format::record(TAG_FILTER, snapshot_format::text_field(v.filter));
    let c = snapshot_format::record(TAG_ZOOM_PATH, snapshot_format::zoom_body(v.zoom_path));
    let s0 = Progress::start();
    let s1 = Progress { meta: Some(v.meta), ..s0 };
    let s2 = Progress { filter: Some(v.filter), ..s1 };
    lemma_stands_split(p, 0, a + b, c);
    lemma_stands_split(p, 0, a, b);
    lemma_meta(v.meta, 0);
    lemma_next(p, 0, s0, TAG_META, snapshot_format::meta_body(v.meta), s1);
    let p1 = a.len() as int;
    lemma_filter(v.filter, p1 as usize);
    lemma_next(p, p1, s1, TAG_FILTER, snapshot_format::text_field(v.filter), s2);
    let p2 = (a + b).len() as int;
    lemma_zoom(v.zoom_path, p2 as usize);
    lemma_next(
        p,
        p2,
        s2,
        TAG_ZOOM_PATH,
        snapshot_format::zoom_body(v.zoom_path),
        before_nodes(v),
    );
}

/// Reading all node records gives the tree.
proof fn lemma_root(p: Seq<u8>, pos: int, st: Progress, t: DataTree)
    requires
        p.len() <= MAX_PAYLOAD_LEN,
        stands(p, pos, snapshot_format::tree_records(t)),
        st.meta is Some && st.filter is Some && st.zoom_path is Some,
        st.tree is None,
        st.open.len() == 0,
        st.count == 0,
        tree_fits(t, 0),
        tree_size(t) <= MAX_NODES,
    ensures
        snapshot_format::records_from(p, pos, st) == snapshot_format::records_from(
            p,
            pos + snapshot_format::tree_records(t).len(),
            Progress { tree: Some(t), open: Seq::empty(), count: tree_size(t), ..st },
        ),
{
    let body = snapshot_format::node_body(t.data, t.kids.len());
    let rec = snapshot_format::record(TAG_NODE, body);
    let leaf = model::data_leaf(t.data);
    let none = Seq::<u32>::empty();
    lemma_stands_split(p, pos, rec, snapshot_format::forest_records(t.kids));
    lemma_node(t.data, t.kids.len(), pos as usize);
    assert(st.open =~= none);
    assert(snapshot_format::unfinished(none) == none);
    let st2 = Progress {
        tree: Some(leaf),
        open: if t.kids.len() > 0 {
            none.push(t.kids.len() as u32)
        } else {
            snapshot_format::unfinished(none)
        },
        count: 1,
        ..st
    };
    lemma_next(p, pos, st, TAG_NODE, body, st2);
    lemma_forest(p, pos + rec.len(), st2, None, none, leaf, t.kids);
    assert(t.kids + leaf.kids =~= t.kids);
}

/// No node record of a tree that keeps to the caps is too large.
proof fn lemma_no_overflow(t: DataTree, depth: nat, at: nat)
    requires
        tree_fits(t, depth),
    ensures
        snapshot_format::tree_overflow(t, at) is None,
    decreases t,
{
    snapshot::lemma_node_head_len(t.data, t.kids.len());
    bytes::lemma_le_len(snapshot_format::utf8(t.data.name).len(), 4);
    let body = snapshot_format::node_body(t.data, t.kids.len());
    assert(body.len() == 64 + snapshot_format::utf8(t.data.name).len());
    lemma_no_overflow_among(
        t.kids,
        depth + 1,
        at + snapshot_format::record(TAG_NODE, body).len(),
    );
}

proof fn lemma_no_overflow_among(ts: Seq<DataTree>, depth: nat, at: nat)
    requires
        forest_fits(ts, depth),
    ensures
        snapshot_format::forest_overflow(ts, at) is None,
    decreases ts,
{
    if ts.len() > 0 {
        lemma_no_overflow(ts.last(), depth, at);
        lemma_no_overflow_among(
            ts.drop_last(),
            depth,
            at + snapshot_format::tree_records(ts.last()).len(),
        );
    }
}

/// The payload of a snapshot that keeps to the caps reads as that snapshot.
proof fn lemma_payload(v: SnapshotView)
    requires
        fits(v),
    ensures
        snapshot_format::payload_of(v) == Ok::<_, SnapshotError>(
            snapshot_format::preamble(v) + snapshot_format::tree_records(v.tree->0),
        ),
        snapshot_format::snapshot_in(
            snapshot_format::preamble(v) + snapshot_format::tree_records(v.tree->0),
        ) == Ok::<_, SnapshotError>(v),
{
    let t = v.tree->0;
    let p = snapshot_format::preamble(v) + snapshot_format::tree_records(t);
    lemma_stands_self(p);
    lemma_stands_split(p, 0, snapshot_format::preamble(v), snapshot_format::tree_records(t));
    lemma_preamble(v, p);
    lemma_root(p, snapshot_format::preamble(v).len() as int, before_nodes(v), t);
    lemma_no_overflow(t, 0, snapshot_format::preamble(v).len());
    let end = Progress {
        tree: Some(t),
        open: Seq::empty(),
        count: tree_size(t),
        ..before_nodes(v)
    };
    assert(snapshot_format::records_from(p, p.len() as int, end) == Ok::<_, SnapshotError>(end)) by {
        reveal(snapshot_format::records_from);
    }
}

/// A file around a payload is taken apart into that payload.
proof fn lemma_framed(payload: Seq<u8>, crc32: u32, crc64: u64)
    requires
        payload.len() <= MAX_PAYLOAD_LEN,
    ensures
        ({
            let b = snapshot_format::framed(payload, crc32, crc64);
            &&& snapshot_format::layout_of(b) matches Ok(l) && {
                &&& l == (Layout {
                    header_len: 28,
                    payload_len: payload.len() as u64,
                    stored_crc32: crc32,
                })
                &&& snapshot_format::checked_header(b, l) == snapshot_format::header(payload.len())
                &&& snapshot_format::payload_in(b, l, crc32) == Ok::<_, SnapshotError>(payload)
            }
            &&& snapshot_format::trusted_payload(b, payload, crc64)
                == snapshot_format::snapshot_in(payload)
            &&& b.len() == payload.len() + 36
        }),
{
    let b = snapshot_format::framed(payload, crc32, crc64);
    let m = snapshot_format::magic();
    let ver = bytes::le(1, 2);
    let hl = bytes::le(28, 2);
    let fl = bytes::le(0, 4);
    let pl = bytes::le(payload.len(), 8);
    let c32 = bytes::le(crc32 as nat, 4);
    let c64 = bytes::le(crc64 as nat, 8);
    bytes::lemma_byte_ranges();
    bytes::lemma_le_len(1, 2);
    bytes::lemma_le_len(28, 2);
    bytes::lemma_le_len(0, 4);
    bytes::lemma_le_len(payload.len(), 8);
    bytes::lemma_le_len(crc32 as nat, 4);
    bytes::lemma_le_len(crc64 as nat, 8);
    bytes::lemma_unle_le(1, 2);
    bytes::lemma_unle_le(28, 2);
    bytes::lemma_unle_le(0, 4);
    bytes::lemma_unle_le(payload.len(), 8);
    bytes::lemma_unle_le(crc32 as nat, 4);
    bytes::lemma_unle_le(crc64 as nat, 8);
    lemma_stands_self(b);
    lemma_stands_split(b, 0, m + ver + hl + fl + pl + c32 + payload, c64);
    lemma_stands_split(b, 0, m + ver + hl + fl + pl + c32, payload);
    lemma_stands_split(b, 0, m + ver + hl + fl + pl, c32);
    lemma_stands_split(b, 0, m + ver + hl + fl, pl);
    lemma_stands_split(b, 0, m + ver + hl, fl);
    lemma_stands_split(b, 0, m + ver, hl);
    lemma_stands_split(b, 0, m, ver);
}

/// Loading what was saved gives the snapshot that was saved, for every snapshot
/// that keeps to the caps of the format.
pub proof fn law_round_trip(v: SnapshotView)
    requires
        fits(v),
    ensures
        snapshot::encoding(v) is Ok,
        snapshot::decoding(snapshot::encoding(v)->Ok_0) == Ok::<_, SnapshotError>(v),
{
    lemma_payload(v);
    let p = snapshot_format::preamble(v) + snapshot_format::tree_records(v.tree->0);
    lemma_framed(
        p,
        snapshot::crc32_of(snapshot_format::header(p.len())),
        snapshot::crc64_of(p),
    );
}

/// Saving a loaded file again gives the same bytes as the first save.
pub proof fn law_byte_stable(v: SnapshotView)
    requires
        fits(v),
    ensures
        snapshot::decoding(snapshot::encoding(v)->Ok_0) matches Ok(w) && snapshot::encoding(w)
            == snapshot::encoding(v),
{
    law_round_trip(v);
}

/// Where the length of a file differs from that of an encoding, and one begins
/// with the other, the file does not load: it is too short for any header, or
/// its payload is not as long as its header says.
pub proof fn law_other_length(v: SnapshotView, b: Seq<u8>)
    requires
        snapshot::encoding(v) is Ok,
        b.len() <= usize::MAX,
        b.len() != snapshot::encoding(v)->Ok_0.len(),
        snapshot::encoding(v)->Ok_0.is_prefix_of(b) || b.is_prefix_of(snapshot::encoding(v)->Ok_0),
    ensures
        snapshot::decoding(b) == Err::<SnapshotView, _>(
            if b.len() < 36 {
                SnapshotError::TooShort { len: b.len() as usize, need: 36 }
            } else {
                SnapshotError::PayloadLengthMismatch {
                    announced: (snapshot::encoding(v)->Ok_0.len() - 36) as u64,
                    actual: (b.len() - 36) as u64,
                }
            },
        ),
{
    let p = snapshot_format::payload_of(v)->Ok_0;
    let c32 = snapshot::crc32_of(snapshot_format::header(p.len()));
    let c64 = snapshot::crc64_of(p);
    let a = snapshot_format::framed(p, c32, c64);
    assert(a == snapshot::encoding(v)->Ok_0);
    lemma_framed(p, c32, c64);
    if b.len() >= 36 {
        assert(a.subrange(0, 8) =~= b.subrange(0, 8));
        assert(a.subrange(8, 10) =~= b.subrange(8, 10));
        assert(a.subrange(10, 12) =~= b.subrange(10, 12));
        assert(a.subrange(12, 16) =~= b.subrange(12, 16));
        assert(a.subrange(16, 24) =~= b.subrange(16, 24));
        assert(a.subrange(24, 28) =~= b.subrange(24, 28));
        assert(a.subrange(0, 24) =~= b.subrange(0, 24));
        let l = snapshot_format::layout_of(a)->Ok_0;
        assert(bytes::unle(a.subrange(10, 12)) as u16 == 28);
        assert(snapshot_format::layout_of(b) == Ok::<_, SnapshotError>(l));
        assert(snapshot_format::payload_in(b, l, c32) is Err);
    }
}

/// A file that loads does not load any more when it is cut short or added to.
/// When it is added to, its payload is longer than its header says.
pub proof fn law_length_is_exact(a: Seq<u8>, b: Seq<u8>)
    requires
        snapshot::decoding(a) is Ok,
        a.len() <= usize::MAX,
        b.len() <= usize::MAX,
        b.len() != a.len(),
        a.is_prefix_of(b) || b.is_prefix_of(a),
    ensures
        snapshot::decoding(b) is Err,
        a.is_prefix_of(b) ==> (snapshot_format::layout_of(a) matches Ok(l) && snapshot::decoding(b)
            == Err::<SnapshotView, _>(
            SnapshotError::PayloadLengthMismatch {
                announced: l.payload_len,
                actual: (b.len() - l.header_len - 8) as u64,
            },
        )),
{
    let la = snapshot_format::layout_of(a)->Ok_0;
    if a.is_prefix_of(b) {
        let h = la.header_len as int;
        bytes::lemma_byte_ranges();
        bytes::lemma_le_unle(a.subrange(10, 12));
        assert(a.subrange(0, 8) =~= b.subrange(0, 8));
        assert(a.subrange(8, 10) =~= b.subrange(8, 10));
        assert(a.subrange(10, 12) =~= b.subrange(10, 12));
        assert(a.subrange(12, 16) =~= b.subrange(12, 16));
        assert(a.subrange(16, 24) =~= b.subrange(16, 24));
        assert(a.subrange(h - 4, h) =~= b.subrange(h - 4, h));
        assert(a.subrange(0, h - 4) =~= b.subrange(0, h - 4));
        assert(snapshot_format::layout_of(b) == Ok::<_, SnapshotError>(la));
    }
    if snapshot::decoding(b) is Ok {
        assert(a.len() >= 36 && b.len() >= 36);
        assert(a.subrange(10, 12) =~= b.subrange(10, 12));
        assert(a.subrange(16, 24) =~= b.subrange(16, 24));
    }
}

/// Only a snapshot without a tree is refused as empty. Every file starts with
/// the magic bytes, the version, the length of the header, no flags, the length
/// of the payload and the CRC-32 of all these, and ends with the CRC-64 of the
/// payload between.
pub proof fn law_layout(v: SnapshotView)
    ensures
        snapshot::encoding(v) == Err::<Seq<u8>, _>(SnapshotError::EmptyTree) <==> v.tree is None,
        snapshot::encoding(v) matches Ok(b) ==> {
            let payload = b.subrange(28, b.len() - 8);
            &&& b.len() >= 36
            &&& b.subrange(0, 8) == snapshot_format::magic()
            &&& b.subrange(8, 10) == bytes::le(1, 2)
            &&& b.subrange(10, 12) == bytes::le(28, 2)
            &&& b.subrange(12, 16) == bytes::le(0, 4)
            &&& b.subrange(16, 24) == bytes::le(payload.len(), 8)
            &&& b.subrange(24, 28) == bytes::le(
                snapshot::crc32_of(b.subrange(0, 24)) as nat,
                4,
            )
            &&& b.subrange(b.len() - 8, b.len() as int) == bytes::le(
                snapshot::crc64_of(payload) as nat,
                8,
            )
        },
{
    if let Ok(b) = snapshot::encoding(v) {
        let p = snapshot_format::payload_of(v)->Ok_0;
        let c32 = snapshot::crc32_of(snapshot_format::header(p.len()));
        let c64 = snapshot::crc64_of(p);
        lemma_places(p, c32, c64);
    }
}

/// Where the parts of a file stand.
proof fn lemma_places(payload: Seq<u8>, crc32: u32, crc64: u64)
    requires
        payload.len() <= MAX_PAYLOAD_LEN,
    ensures
        ({
            let b = snapshot_format::framed(payload, crc32, crc64);
            &&& b.len() == payload.len() + 36
            &&& b.subrange(0, 8) == snapshot_format::magic()
            &&& b.subrange(8, 10) == bytes::le(1, 2)
            &&& b.subrange(10, 12) == bytes::le(28, 2)
            &&& b.subrange(12, 16) == bytes::le(0, 4)
            &&& b.subrange(16, 24) == bytes::le(payload.len(), 8)
            &&& b.subrange(0, 24) == snapshot_format::header(payload.len())
            &&& b.subrange(24, 28) == bytes::le(crc32 as nat, 4)
            &&& b.subrange(28, b.len() - 8) == payload
            &&& b.subrange(b.len() - 8, b.len() as int) == bytes::le(crc64 as nat, 8)
        }),
{
    let b = snapshot_format::framed(payload, crc32, crc64);
    bytes::lemma_le_len(1, 2);
    bytes::lemma_le_len(28, 2);
    bytes::lemma_le_len(0, 4);
    bytes::lemma_le_len(payload.len(), 8);
    bytes::lemma_le_len(crc32 as nat, 4);
    bytes::lemma_le_len(crc64 as nat, 8);
    assert(b.subrange(0, 8) =~= snapshot_format::magic());
    assert(b.subrange(8, 10) =~= bytes::le(1, 2));
    assert(b.subrange(10, 12) =~= bytes::le(28, 2));
    assert(b.subrange(12, 16) =~= bytes::le(0, 4));
    assert(b.subrange(16, 24) =~= bytes::le(payload.len(), 8));
    assert(b.subrange(0, 24) =~= snapshot_format::header(payload.len()));
    assert(b.subrange(24, 28) =~= bytes::le(crc32 as nat, 4));
    assert(b.subrange(28, b.len() - 8) =~= payload);
    assert(b.subrange(b.len() - 8, b.len() as int) =~= bytes::le(crc64 as nat, 8));
}

/// What holds of a file in which one byte is changed behind the header.
pub proof fn lemma_damaged(v: SnapshotView, b: Seq<u8>)
    requires
        snapshot::damaged(v, b),
    ensures
        ({
            let a = snapshot::encoding(v)->Ok_0;
            let n = b.len() as int;
            let saved = a.subrange(28, n - 8);
            let found = b.subrange(28, n - 8);
            &&& a.len() == n
            &&& a != b
            &&& n >= 36
            &&& b.subrange(0, 28) == a.subrange(0, 28)
            &&& snapshot::found_in(b, found)
            &&& saved == found || (snapshot::one_byte_apart(saved, found) && b.subrange(n - 8, n)
                == a.subrange(n - 8, n))
        }),
{
    let a = snapshot::encoding(v)->Ok_0;
    let n = b.len() as int;
    let i = choose|i: int| 28 <= i && #[trigger] snapshot::changed_at(a, b, i);
    law_layout(v);
    assert(b.subrange(0, 28) =~= a.subrange(0, 28));
    law_damage_is_found(v, b);
    let saved = a.subrange(28, n - 8);
    let found = b.subrange(28, n - 8);
    if i < n - 8 {
        assert(snapshot::changed_at(saved, found, i - 28));
        assert(b.subrange(n - 8, n) =~= a.subrange(n - 8, n));
    } else {
        assert(saved =~= found);
    }
}

/// A file that is damaged behind its header does not load, unless the damaged
/// payload has the checksum that the file ends with. So if only the checksum is
/// damaged, or if the damaged payload has another one, the file does not load.
pub proof fn law_damage_is_found(v: SnapshotView, b: Seq<u8>)
    requires
        snapshot::encoding(v) is Ok,
        b.len() == snapshot::encoding(v)->Ok_0.len(),
        b.subrange(0, 28) == snapshot::encoding(v)->Ok_0.subrange(0, 28),
    ensures
        ({
            let a = snapshot::encoding(v)->Ok_0;
            let n = b.len() as int;
            let computed = snapshot::crc64_of(b.subrange(28, n - 8));
            let stored = bytes::unle(b.subrange(n - 8, n)) as u64;
            let damaged = Err::<SnapshotView, _>(
                SnapshotError::PayloadCrcMismatch { stored, computed },
            );
            &&& snapshot::found_in(b, b.subrange(28, n - 8))
            &&& stored != computed ==> snapshot::decoding(b) == damaged
            &&& b != a && b.subrange(28, n - 8) == a.subrange(28, n - 8)
                ==> snapshot::decoding(b) == damaged
            &&& b.subrange(n - 8, n) == a.subrange(n - 8, n) && computed != snapshot::crc64_of(
                a.subrange(28, n - 8),
            ) ==> snapshot::decoding(b) == damaged
        }),
{
    let p = snapshot_format::payload_of(v)->Ok_0;
    let c32 = snapshot::crc32_of(snapshot_format::header(p.len()));
    let c64 = snapshot::crc64_of(p);
    let a = snapshot_format::framed(p, c32, c64);
    let n = b.len() as int;
    lemma_framed(p, c32, c64);
    lemma_places(p, c32, c64);
    bytes::lemma_byte_ranges();
    bytes::lemma_unle_le(c64 as nat, 8);
    bytes::lemma_le_unle(b.subrange(n - 8, n));
    assert forall|i: int, j: int| 0 <= i <= j <= 28 implies #[trigger] b.subrange(i, j)
        == a.subrange(i, j) by {
        assert(b.subrange(i, j) =~= b.subrange(0, 28).subrange(i, j));
        assert(a.subrange(i, j) =~= a.subrange(0, 28).subrange(i, j));
    }
    let l = snapshot_format::layout_of(a)->Ok_0;
    assert(b.subrange(0, 8) == a.subrange(0, 8));
    assert(b.subrange(8, 10) == a.subrange(8, 10));
    assert(b.subrange(10, 12) == a.subrange(10, 12));
    assert(b.subrange(12, 16) == a.subrange(12, 16));
    assert(b.subrange(16, 24) == a.subrange(16, 24));
    assert(b.subrange(24, 28) == a.subrange(24, 28));
    assert(b.subrange(0, 24) == a.subrange(0, 24));
    assert(bytes::unle(a.subrange(10, 12)) as u16 == 28);
    assert(snapshot_format::layout_of(b) == Ok::<_, SnapshotError>(l));
    assert(snapshot_format::payload_in(b, l, c32) == Ok::<_, SnapshotError>(b.subrange(28, n - 8)));
    if b.subrange(28, n - 8) == a.subrange(28, n - 8) && b != a {
        if bytes::unle(b.subrange(n - 8, n)) as u64 == c64 {
            assert(b.subrange(n - 8, n) == a.subrange(n - 8, n));
            assert(b =~= b.subrange(0, 28) + b.subrange(28, n - 8) + b.subrange(n - 8, n));
            assert(a =~= a.subrange(0, 28) + a.subrange(28, n - 8) + a.subrange(n - 8, n));
        }
    }
}

/// What the nodes of a tree hold, in the order of their records.
pub open spec fn nodes_in(t: DataTree) -> Seq<NodeData>
    decreases t,
{
    seq![t.data] + nodes_among(t.kids)
}

/// What the nodes of siblings and of what is below them hold, the last sibling
/// first.
pub open spec fn nodes_among(ts: Seq<DataTree>) -> Seq<NodeData>
    decreases ts,
{
    if ts.len() == 0 {
        Seq::empty()
    } else {
        nodes_in(ts.last()) + nodes_among(ts.drop_last())
    }
}

/// What listed nodes hold.
spec fn held(s: State, ids: Seq<NodeId>) -> Seq<NodeData> {
    Seq::new(ids.len(), |i: int| s.nodes[ids[i] as int]@)
}

/// The records of a subtree hold its nodes in stack order.
proof fn lemma_nodes_in(s: State, x: NodeId)
    requires
        s.links(),
        s.live(x),
    ensures
        nodes_in(s.data(x)) == held(s, model::stack_order_one(s.rose(x))),
    decreases s.bound - s.depth[x], s.kids[x].len() + 1,
{
    let ks = s.kids[x];
    assert(s.node_ok(x));
    s.lemma_rose(x);
    s.lemma_data(x);
    lemma_nodes_among(s, x, ks.len());
    assert(ks.take(ks.len() as int) =~= ks);
    assert(s.data(x).kids =~= snapshot::data_list(s, ks));
    assert(nodes_in(s.data(x)) =~= held(s, model::stack_order_one(s.rose(x))));
}

/// The same for the first `n` children of `p`.
proof fn lemma_nodes_among(s: State, p: NodeId, n: nat)
    requires
        s.links(),
        s.live(p),
        n <= s.kids[p].len(),
    ensures
        ({
            let ids = s.kids[p].take(n as int);
            nodes_among(snapshot::data_list(s, ids)) == held(s, model::stack_order(s.roses(ids)))
        }),
    decreases s.bound - s.depth[p], n,
{
    let ids = s.kids[p].take(n as int);
    let ts = snapshot::data_list(s, ids);
    let forest = s.roses(ids);
    assert(s.node_ok(p));
    if n == 0 {
        assert(nodes_among(ts) =~= held(s, model::stack_order(forest)));
    } else {
        let less = s.kids[p].take(n - 1);
        let last = s.kids[p][n - 1];
        assert(s.child_ok(p, n - 1));
        assert(s.node_ok(last));
        lemma_nodes_in(s, last);
        lemma_nodes_among(s, p, (n - 1) as nat);
        assert(ts.drop_last() =~= snapshot::data_list(s, less));
        assert(forest.drop_last() =~= s.roses(less));
        assert(ts.last() == s.data(last));
        assert(forest.last() == s.rose(last));
        assert(nodes_among(ts) =~= held(s, model::stack_order(forest)));
    }
}

/// In a loaded tree the `i`-th node record holds node `i`.
pub proof fn law_numbered_by_record(s: State)
    requires
        s.wf(),
        s.numbered(),
    ensures
        nodes_in(s.data(0)).len() == s.nodes.len(),
        forall|i: int|
            0 <= i < s.nodes.len() ==> (#[trigger] s.nodes[i])@ == nodes_in(s.data(0))[i],
{
    lemma_nodes_in(s, 0);
    let order = model::stack_order_one(s.rose(0));
    assert forall|i: int| 0 <= i < s.nodes.len() implies (#[trigger] s.nodes[i])@ == nodes_in(
        s.data(0),
    )[i] by {
        assert(order[i] == i as NodeId);
    }
}

} // verus!
