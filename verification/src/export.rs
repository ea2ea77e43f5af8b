//! Flat CSV export and the document of the nested export.
//!
//! Both walk the subtree of a node depth-first, siblings by descending size.
//! Sizes and counts are those of whole subtrees.
use vstd::prelude::*;
use vstd::string::*;

use crate::export_error::ExportError;
use crate::model::State;
use crate::node::{Node, NodeKind};
use crate::sort;
use crate::sort::SortBy;
use crate::text;
use crate::time;
use crate::tree::Tree;
use crate::visit;
use crate::visit::Visit;
use crate::NodeId;

verus! {

/// Which size siblings are ordered by.
#[derive(Clone, Copy, PartialEq, Eq, Debug, Structural)]
pub enum SizeMode {
    /// The allocated size, alternate data streams counted in.
    Allocated,
    /// The logical size.
    Logical,
}

impl Default for SizeMode {
    fn default() -> (mode: Self)
        ensures
            mode == SizeMode::Allocated,
    {
        SizeMode::Allocated
    }
}

/// Options of the exports.
#[derive(Clone, Copy, PartialEq, Eq, Debug, Structural)]
pub struct ExportOptions {
    pub size_mode: SizeMode,
}

impl Default for ExportOptions {
    fn default() -> (options: Self)
        ensures
            options.size_mode == SizeMode::Allocated,
    {
        ExportOptions { size_mode: SizeMode::Allocated }
    }
}

/// A size to sort by, the largest first.
pub struct Largest(pub u64);

impl SortBy for Largest {
    type Rank = u64;

    open spec fn rank(self) -> u64 {
        self.0
    }

    open spec fn may_precede(a: u64, b: u64) -> bool {
        a >= b
    }

    proof fn law_total(a: u64, b: u64) {
    }

    proof fn law_transitive(a: u64, b: u64, c: u64) {
    }

    fn precedes(&self, other: &Self) -> (r: bool) {
        self.0 >= other.0
    }
}

/// The size of a node's subtree.
pub open spec fn size_of(n: Node, mode: SizeMode) -> u64 {
    match mode {
        SizeMode::Allocated => n.agg_allocated,
        SizeMode::Logical => n.agg_logical,
    }
}

/// The sizes of children.
pub open spec fn size_keys(s: State, ids: Seq<NodeId>, mode: SizeMode) -> Seq<u64> {
    Seq::new(ids.len(), |i: int| size_of(s.nodes[ids[i] as int], mode))
}

/// Ids in the order of positions.
pub open spec fn arranged(ids: Seq<NodeId>, order: Seq<int>) -> Seq<NodeId> {
    Seq::new(order.len(), |i: int| ids[order[i]])
}

/// The children of each node by descending size; equal ones keep their order.
pub open spec fn by_size(s: State, mode: SizeMode) -> spec_fn(NodeId) -> Seq<NodeId> {
    |p: NodeId| arranged(s.kids[p], sort::ranks::<Largest>(size_keys(s, s.kids[p], mode)))
}

/// A rearrangement of a list without repetitions has the same elements.
pub proof fn lemma_arranged(ids: Seq<NodeId>, order: Seq<int>)
    requires
        ids.no_duplicates(),
        order.len() == ids.len(),
        order.no_duplicates(),
        forall|i: int| 0 <= i < order.len() ==> 0 <= #[trigger] order[i] < ids.len(),
        forall|p: int| 0 <= p < ids.len() ==> #[trigger] order.contains(p),
    ensures
        arranged(ids, order).no_duplicates(),
        forall|x: NodeId| #[trigger] arranged(ids, order).contains(x) <==> ids.contains(x),
{
    let out = arranged(ids, order);
    assert forall|i: int, j: int| 0 <= i < j < out.len() implies out[i] != out[j] by {
        assert(order[i] != order[j]);
        assert(ids[order[i]] != ids[order[j]]);
    }
    assert forall|x: NodeId| #[trigger] out.contains(x) <==> ids.contains(x) by {
        if out.contains(x) {
            let i = choose|i: int| 0 <= i < out.len() && out[i] == x;
            assert(ids[order[i]] == x);
        }
        if ids.contains(x) {
            let p = choose|p: int| 0 <= p < ids.len() && ids[p] == x;
            assert(order.contains(p));
            let i = choose|i: int| 0 <= i < order.len() && order[i] == p;
            assert(out[i] == x);
        }
    }
}

/// Sorting by size arranges the children.
pub proof fn lemma_by_size(s: State, mode: SizeMode)
    requires
        s.links(),
    ensures
        visit::arranges(s, by_size(s, mode)),
{
    assert forall|p: NodeId| #[trigger] s.live(p) implies by_size(s, mode)(p).no_duplicates()
        && forall|x: NodeId| #[trigger]
        by_size(s, mode)(p).contains(x) <==> s.kids[p].contains(x) by {
        assert(s.node_ok(p));
        let keys = size_keys(s, s.kids[p], mode);
        sort::lemma_ranks::<Largest>(keys);
        lemma_arranged(s.kids[p], sort::ranks::<Largest>(keys));
    }
}

/// Ids in the order of positions.
pub fn arrange(ids: &Vec<NodeId>, order: &Vec<usize>) -> (out: Vec<NodeId>)
    requires
        forall|i: int| 0 <= i < order@.len() ==> (#[trigger] order@[i]) < ids@.len(),
    ensures
        out@ == arranged(ids@, sort::ints(order@)),
{
    let mut out: Vec<NodeId> = Vec::new();
    for i in 0..order.len()
        invariant
            forall|i: int| 0 <= i < order@.len() ==> (#[trigger] order@[i]) < ids@.len(),
            out@.len() == i,
            forall|j: int| 0 <= j < i ==> out@[j] == ids@[order@[j] as int],
    {
        out.push(ids[order[i]]);
    }
    proof {
        assert(out@ =~= arranged(ids@, sort::ints(order@)));
    }
    out
}

/// The children of a node by descending size; equal ones keep their order.
pub fn sorted_children(tree: &Tree, parent: NodeId, mode: SizeMode) -> (out: Vec<NodeId>)
    requires
        tree@.links(),
        tree@.live(parent),
    ensures
        out@ == by_size(tree@, mode)(parent),
{
    let ids = tree.children(parent).collect();
    let mut keys: Vec<Largest> = Vec::new();
    proof {
        assert(tree@.node_ok(parent));
    }
    for i in 0..ids.len()
        invariant
            tree@.links(),
            tree@.live(parent),
            tree@.node_ok(parent),
            ids@ == tree@.kids[parent],
            keys@.len() == i,
            forall|j: int|
                0 <= j < i ==> (#[trigger] keys@[j]) == Largest(
                    size_of(tree@.nodes[ids@[j] as int], mode),
                ),
    {
        proof {
            assert(tree@.child_ok(parent, i as int));
            assert(tree@.node_ok(ids@[i as int]));
        }
        let n = tree.node(ids[i]);
        keys.push(
            Largest(
                match mode {
                    SizeMode::Allocated => n.agg_allocated,
                    SizeMode::Logical => n.agg_logical,
                },
            ),
        );
    }
    proof {
        assert(sort::ranked(keys@) =~= size_keys(tree@, ids@, mode));
        sort::lemma_ranks::<Largest>(sort::ranked(keys@));
    }
    let order = sort::sorted_positions(&keys);
    proof {
        assert forall|i: int| 0 <= i < order@.len() implies (#[trigger] order@[i]) < ids@.len() by {
            assert(sort::ints(order@)[i] == sort::ranks::<Largest>(sort::ranked(keys@))[i]);
        }
    }
    arrange(&ids, &order)
}

/// The word for a kind of node.
pub open spec fn kind_word(kind: NodeKind) -> Seq<char> {
    match kind {
        NodeKind::File => "file"@,
        NodeKind::Directory => "directory"@,
        NodeKind::Ads => "ads"@,
        NodeKind::FreeSpace => "free_space"@,
        NodeKind::UnknownSpace => "unknown_space"@,
        NodeKind::Unaccessible => "unaccessible"@,
    }
}

/// The word for a kind of node.
pub fn kind_str(kind: NodeKind) -> (s: &'static str)
    ensures
        s@ == kind_word(kind),
{
    match kind {
        NodeKind::File => "file",
        NodeKind::Directory => "directory",
        NodeKind::Ads => "ads",
        NodeKind::FreeSpace => "free_space",
        NodeKind::UnknownSpace => "unknown_space",
        NodeKind::Unaccessible => "unaccessible",
    }
}

fn validate_root(tree: &Tree, root: NodeId) -> (r: Result<(), ExportError>)
    requires
        tree@.wf(),
    ensures
        r == if tree@.live(root) {
            Ok(())
        } else {
            Err::<(), ExportError>(ExportError::InvalidRoot(root))
        },
{
    if tree.is_live(root) {
        Ok(())
    } else {
        Err(ExportError::InvalidRoot(root))
    }
}

/// The path of a child is the path of its parent with the name added.
pub proof fn lemma_child_path(s: State, p: NodeId, c: NodeId)
    requires
        s.links(),
        s.live(p),
        s.kids[p].contains(c),
    ensures
        s.live(c),
        s.path_to(c) == text::joined(s.path_to(p), s.nodes[c as int].name@),
{
    assert(s.node_ok(p));
    let i = choose|i: int| 0 <= i < s.kids[p].len() && s.kids[p][i] == c;
    assert(s.child_ok(p, i));
    s.lemma_trail(p, s.depth[p]);
    assert(s.trail_to(c, s.depth[c]) == s.trail_to(p, s.depth[p]).push(c));
    assert(s.names_to(c) =~= s.names_to(p).push(s.nodes[c as int].name@));
    assert(s.names_to(c).drop_last() =~= s.names_to(p));
}

/// Whether a byte makes a CSV field need quotes.
pub open spec fn is_special(b: u8) -> bool {
    b == 34 || b == 44 || b == 10 || b == 13
}

/// A field with every quote doubled.
pub open spec fn doubled(s: Seq<u8>) -> Seq<u8>
    decreases s.len(),
{
    if s.len() == 0 {
        Seq::empty()
    } else if s.last() == 34 {
        doubled(s.drop_last()).push(34).push(34)
    } else {
        doubled(s.drop_last()).push(s.last())
    }
}

/// A field as it stands in a CSV file: in quotes if it has to be.
pub open spec fn csv_field(s: Seq<u8>) -> Seq<u8> {
    if exists|i: int| 0 <= i < s.len() && is_special(#[trigger] s[i]) {
        seq![34u8] + doubled(s) + seq![34u8]
    } else {
        s
    }
}

/// Fields with commas between them.
pub open spec fn csv_fields(fields: Seq<Seq<char>>) -> Seq<u8>
    decreases fields.len(),
{
    if fields.len() == 0 {
        Seq::empty()
    } else {
        let last = csv_field(vstd::utf8::encode_utf8(fields.last()));
        if fields.len() == 1 {
            last
        } else {
            csv_fields(fields.drop_last()).push(44) + last
        }
    }
}

/// A record of a CSV file with its line end.
pub open spec fn csv_line(fields: Seq<Seq<char>>) -> Seq<u8> {
    csv_fields(fields).push(13).push(10)
}

/// The texts of strings.
pub open spec fn field_texts(fields: Seq<String>) -> Seq<Seq<char>> {
    Seq::new(fields.len(), |i: int| fields[i]@)
}

/// `csv::Writer::write_record`, on a writer to memory with the terminator CRLF:
/// the fields with commas between them, in double quotes where they hold a
/// comma, a quote or a line end, and with quotes inside doubled. A record of one
/// field is left out: an empty one would be quoted.
#[verifier::external_body]
fn csv_record(fields: &Vec<String>) -> (line: Vec<u8>)
    requires
        fields@.len() >= 2,
    ensures
        line@ == csv_line(field_texts(fields@)),
{
    let mut writer = csv::WriterBuilder::new().terminator(csv::Terminator::CRLF).from_writer(
        Vec::new(),
    );
    let _ = writer.write_record(fields);
    writer.into_inner().ok().unwrap_or_default()
}

/// The names of the columns.
pub open spec fn csv_header() -> Seq<Seq<char>> {
    seq![
        "path"@,
        "name"@,
        "kind"@,
        "logical_size"@,
        "allocated_size"@,
        "files"@,
        "dirs"@,
        "modified"@,
    ]
}

/// The row of a node.
pub open spec fn csv_row(s: State, id: NodeId) -> Seq<Seq<char>> {
    let n = s.nodes[id as int];
    seq![
        s.path_to(id),
        n.name@,
        kind_word(n.kind),
        text::dec(n.agg_logical as nat),
        text::dec(n.agg_allocated as nat),
        text::dec(n.agg_files as nat),
        text::dec(n.agg_dirs as nat),
        time::rfc3339(n.modified as int),
    ]
}

/// The rows of the nodes of a walk.
pub open spec fn csv_rows(s: State, w: Seq<Visit>) -> Seq<u8>
    decreases w.len(),
{
    if w.len() == 0 {
        Seq::empty()
    } else {
        csv_line(csv_row(s, w[0].id)) + csv_rows(s, w.drop_first())
    }
}

/// The whole file: a byte order mark, the header, and a row for each node.
pub open spec fn csv_file(s: State, root: NodeId, mode: SizeMode) -> Seq<u8> {
    seq![0xefu8, 0xbbu8, 0xbfu8] + csv_line(csv_header()) + csv_rows(
        s,
        visit::visits(s, by_size(s, mode), root),
    )
}

/// A number in decimal.
pub fn decimal(n: u64) -> (s: String)
    ensures
        s@ == text::dec(n as nat),
{
    let mut s: String = String::new();
    text::push_decimal(&mut s, n);
    proof {
        assert(s@ =~= text::dec(n as nat));
    }
    s
}

/// The row of a node whose path is at hand.
fn row_of(n: &Node, path: &str) -> (fields: Vec<String>)
    ensures
        fields@.len() == 8,
        field_texts(fields@) == seq![
            path@,
            n.name@,
            kind_word(n.kind),
            text::dec(n.agg_logical as nat),
            text::dec(n.agg_allocated as nat),
            text::dec(n.agg_files as nat),
            text::dec(n.agg_dirs as nat),
            time::rfc3339(n.modified as int),
        ],
{
    let fields: Vec<String> = vec![
        path.to_owned(),
        n.name.clone(),
        kind_str(n.kind).to_owned(),
        decimal(n.agg_logical),
        decimal(n.agg_allocated),
        decimal(n.agg_files),
        decimal(n.agg_dirs),
        time::format_rfc3339(n.modified),
    ];
    proof {
        assert(field_texts(fields@) =~= seq![
            path@,
            n.name@,
            kind_word(n.kind),
            text::dec(n.agg_logical as nat),
            text::dec(n.agg_allocated as nat),
            text::dec(n.agg_files as nat),
            text::dec(n.agg_dirs as nat),
            time::rfc3339(n.modified as int),
        ]);
    }
    fields
}

fn header_fields() -> (fields: Vec<String>)
    ensures
        fields@.len() == 8,
        field_texts(fields@) == csv_header(),
{
    let fields: Vec<String> = vec![
        "path".to_owned(),
        "name".to_owned(),
        "kind".to_owned(),
        "logical_size".to_owned(),
        "allocated_size".to_owned(),
        "files".to_owned(),
        "dirs".to_owned(),
        "modified".to_owned(),
    ];
    proof {
        assert(field_texts(fields@) =~= csv_header());
    }
    fields
}

/// A subtree that is still to be exported.
struct Todo {
    id: NodeId,
    path: String,
}

/// The stack of an export in terms of a walk, at any depth.
spec fn todo_visits(stack: Seq<Todo>, depths: Seq<nat>) -> Seq<Visit> {
    Seq::new(stack.len(), |i: int| Visit { id: stack[i].id, depth: depths[i] })
}

/// Puts the children of a node on the stack, the first on top.
fn push_children(tree: &Tree, stack: &mut Vec<Todo>, kids: &Vec<NodeId>, parent: NodeId, path: &str)
    requires
        tree@.links(),
        tree@.live(parent),
        path@ == tree@.path_to(parent),
        forall|x: NodeId| #[trigger] kids@.contains(x) ==> tree@.kids[parent].contains(x),
    ensures
        final(stack)@.len() == old(stack)@.len() + kids@.len(),
        forall|i: int| 0 <= i < old(stack)@.len() ==> final(stack)@[i] == old(stack)@[i],
        forall|i: int|
            0 <= i < kids@.len() ==> (#[trigger] final(stack)@[old(stack)@.len() + i]).id
                == kids@[kids@.len() - 1 - i] && final(stack)@[old(stack)@.len() + i].path@
                == tree@.path_to(kids@[kids@.len() - 1 - i]),
{
    let mut k: usize = kids.len();
    let ghost n = stack@.len();
    let ghost before = stack@;
    while k > 0
        invariant
            tree@.links(),
            tree@.live(parent),
            path@ == tree@.path_to(parent),
            forall|x: NodeId| #[trigger] kids@.contains(x) ==> tree@.kids[parent].contains(x),
            k <= kids@.len(),
            n == before.len(),
            stack@.len() == n + kids@.len() - k,
            forall|i: int| 0 <= i < n ==> stack@[i] == before[i],
            forall|i: int|
                0 <= i < kids@.len() - k ==> (#[trigger] stack@[n + i]).id == kids@[kids@.len() - 1
                    - i] && stack@[n + i].path@ == tree@.path_to(kids@[kids@.len() - 1 - i]),
        decreases k,
    {
        k = k - 1;
        let c: NodeId = kids[k];
        proof {
            assert(kids@.contains(kids@[k as int]));
            lemma_child_path(tree@, parent, c);
            assert(tree@.node_ok(c));
        }
        let ghost mid = stack@;
        let joined = text::join(path, tree.node(c).name.as_str());
        stack.push(Todo { id: c, path: joined });
        proof {
            assert forall|i: int| 0 <= i < kids@.len() - k implies (#[trigger] stack@[n + i]).id
                == kids@[kids@.len() - 1 - i] && stack@[n + i].path@ == tree@.path_to(
                kids@[kids@.len() - 1 - i],
            ) by {
                if i < kids@.len() - k - 1 {
                    assert(stack@[n + i] == mid[n + i]);
                }
            }
        }
    }
}

/// Writes the subtree of `root` as CSV, siblings by descending allocated size.
pub fn export_csv(tree: &Tree, root: NodeId, out: &mut Vec<u8>) -> (r: Result<(), ExportError>)
    requires
        tree@.wf(),
    ensures
        r == if tree@.live(root) {
            Ok(())
        } else {
            Err::<(), ExportError>(ExportError::InvalidRoot(root))
        },
        r is Ok ==> final(out)@ == old(out)@ + csv_file(tree@, root, SizeMode::Allocated),
        r is Err ==> final(out)@ == old(out)@,
{
    export_csv_with(tree, root, ExportOptions::default(), out)
}

/// Writes the subtree of `root` as CSV.
///
/// The file starts with a byte order mark and a header row, and has a row for
/// each node, depth-first. Lines end in CRLF, and times are UTC.
pub fn export_csv_with(
    tree: &Tree,
    root: NodeId,
    options: ExportOptions,
    out: &mut Vec<u8>,
) -> (r: Result<(), ExportError>)
    requires
        tree@.wf(),
    ensures
        r == if tree@.live(root) {
            Ok(())
        } else {
            Err::<(), ExportError>(ExportError::InvalidRoot(root))
        },
        r is Ok ==> final(out)@ == old(out)@ + csv_file(tree@, root, options.size_mode),
        r is Err ==> final(out)@ == old(out)@,
{
    validate_root(tree, root)?;
    let ghost start = out@;
    let ghost s = tree@;
    let ghost kids = by_size(s, options.size_mode);
    let ghost all = visit::visits(s, kids, root);
    out.push(0xef);
    out.push(0xbb);
    out.push(0xbf);
    let mut line = csv_record(&header_fields());
    out.append(&mut line);
    let ghost top = seq![0xefu8, 0xbbu8, 0xbfu8] + csv_line(csv_header());
    proof {
        assert(out@ =~= start + top);
        lemma_by_size(s, options.size_mode);
    }
    let mut stack: Vec<Todo> = Vec::new();
    stack.push(Todo { id: root, path: tree.path(root) });
    let ghost mut depths: Seq<nat> = seq![0nat];
    proof {
        let st = todo_visits(stack@, depths);
        assert(st.drop_last() =~= Seq::<Visit>::empty());
        assert(visit::left(s, kids, st.drop_last()) == Seq::<Visit>::empty());
        assert(st.last() == (Visit { id: root, depth: 0 }));
        assert(visit::left(s, kids, st) =~= all);
        assert(out@ + csv_rows(s, all) =~= start + (top + csv_rows(s, all)));
    }
    while stack.len() > 0
        invariant
            s == tree@,
            s.links(),
            kids == by_size(s, options.size_mode),
            visit::arranges(s, kids),
            depths.len() == stack@.len(),
            forall|i: int|
                0 <= i < stack@.len() ==> s.live((#[trigger] stack@[i]).id) && stack@[i].path@
                    == s.path_to(stack@[i].id),
            out@ + csv_rows(s, visit::left(s, kids, todo_visits(stack@, depths))) == start + (top
                + csv_rows(s, all)),
        decreases visit::left(s, kids, todo_visits(stack@, depths)).len(),
    {
        let ghost before = todo_visits(stack@, depths);
        let ghost rest = visit::left(s, kids, before);
        proof {
            assert(s.live(stack@[stack@.len() - 1].id));
        }
        let todo = stack.pop().unwrap();
        let ghost popped = stack@;
        proof {
            assert(before.last().id == todo.id);
            assert(before.drop_last() =~= todo_visits(popped, depths.drop_last()));
            visit::lemma_step(s, kids, before);
            assert(s.node_ok(todo.id));
        }
        let ghost so_far = out@;
        let fields = row_of(tree.node(todo.id), todo.path.as_str());
        let mut line = csv_record(&fields);
        out.append(&mut line);
        let children = sorted_children(tree, todo.id, options.size_mode);
        push_children(tree, &mut stack, &children, todo.id, todo.path.as_str());
        proof {
            let d = before.last().depth + 1;
            depths = depths.drop_last() + Seq::new(children@.len(), |i: int| d);
            let now = todo_visits(stack@, depths);
            assert(now =~= before.drop_last() + visit::stacked(kids(todo.id), d)) by {
                assert(now.len() == popped.len() + children@.len());
                assert forall|i: int| 0 <= i < now.len() implies now[i] == (before.drop_last()
                    + visit::stacked(kids(todo.id), d))[i] by {
                    if i >= popped.len() {
                        let j = i - popped.len();
                        assert(stack@[popped.len() + j].id == children@[children@.len() - 1 - j]);
                    } else {
                        assert(stack@[i] == popped[i]);
                    }
                }
            }
            assert forall|i: int| 0 <= i < stack@.len() implies s.live((#[trigger] stack@[i]).id)
                && stack@[i].path@ == s.path_to(stack@[i].id) by {
                if i >= popped.len() {
                    let j = i - popped.len();
                    assert(stack@[popped.len() + j].id == children@[children@.len() - 1 - j]);
                    assert(children@.contains(children@[children@.len() - 1 - j]));
                } else {
                    assert(stack@[i] == popped[i]);
                }
            }
            let after = visit::left(s, kids, now);
            assert(rest == seq![before.last()] + after);
            assert(rest.drop_first() =~= after);
            let row = csv_line(csv_row(s, todo.id));
            assert(out@ =~= so_far + row);
            assert(out@ + csv_rows(s, after) =~= so_far + (row + csv_rows(s, after)));
        }
    }
    proof {
        assert(out@ + Seq::<u8>::empty() =~= out@);
    }
    Ok(())
}

/// The document of a node in mathematical terms.
#[verifier::ext_equal]
pub struct JsonView {
    pub name: Seq<char>,
    pub path: Seq<char>,
    pub kind: Seq<char>,
    pub logical_size: u64,
    pub allocated_size: u64,
    pub files: u64,
    pub dirs: u64,
    pub modified: Seq<char>,
    pub children: Seq<JsonView>,
}

/// The document of a node: the columns of the CSV export and the documents of
/// its children.
#[derive(Debug, PartialEq)]
pub struct JsonNode {
    pub name: String,
    pub path: String,
    pub kind: &'static str,
    pub logical_size: u64,
    pub allocated_size: u64,
    pub files: u64,
    pub dirs: u64,
    pub modified: String,
    pub children: Vec<JsonNode>,
}

/// The document of a node in mathematical terms.
pub open spec fn json_view(n: JsonNode) -> JsonView
    decreases n,
{
    JsonView {
        name: n.name@,
        path: n.path@,
        kind: n.kind@,
        logical_size: n.logical_size,
        allocated_size: n.allocated_size,
        files: n.files,
        dirs: n.dirs,
        modified: n.modified@,
        children: Seq::new(
            n.children@.len(),
            |i: int|
                if 0 <= i < n.children@.len() {
                    json_view(n.children@[i])
                } else {
                    arbitrary()
                },
        ),
    }
}

/// Documents in mathematical terms.
pub open spec fn json_views(v: Seq<JsonNode>) -> Seq<JsonView> {
    Seq::new(v.len(), |i: int| json_view(v[i]))
}

/// The document of a node by itself.
pub open spec fn json_leaf(s: State, id: NodeId, children: Seq<JsonView>) -> JsonView {
    let n = s.nodes[id as int];
    JsonView {
        name: n.name@,
        path: s.path_to(id),
        kind: kind_word(n.kind),
        logical_size: n.agg_logical,
        allocated_size: n.agg_allocated,
        files: n.agg_files,
        dirs: n.agg_dirs,
        modified: time::rfc3339(n.modified as int),
        children,
    }
}

/// The document of a subtree down to `fuel` levels.
pub open spec fn json_to(
    s: State,
    kids: spec_fn(NodeId) -> Seq<NodeId>,
    id: NodeId,
    fuel: nat,
) -> JsonView
    decreases fuel,
{
    json_leaf(
        s,
        id,
        if fuel == 0 {
            Seq::empty()
        } else {
            Seq::new(kids(id).len(), |i: int| json_to(s, kids, kids(id)[i], (fuel - 1) as nat))
        },
    )
}

/// The document of a subtree, siblings by descending size.
pub open spec fn json_doc(s: State, root: NodeId, mode: SizeMode) -> JsonView {
    json_to(s, by_size(s, mode), root, visit::height(s, root))
}

/// What is left to do for a document.
enum Event {
    /// Start the document of a node.
    Enter(Todo),
    /// Finish the document started last.
    Exit,
}

/// An event in mathematical terms.
enum EventView {
    Enter(NodeId),
    Exit,
}

spec fn event_views(v: Seq<Event>) -> Seq<EventView> {
    Seq::new(
        v.len(),
        |i: int|
            match v[i] {
                Event::Enter(todo) => EventView::Enter(todo.id),
                Event::Exit => EventView::Exit,
            },
    )
}

/// The lists of finished documents in mathematical terms.
spec fn list_views(v: Seq<Vec<JsonNode>>) -> Seq<Seq<JsonView>> {
    Seq::new(v.len(), |i: int| json_views(v[i]@))
}

/// The lists with one more document in the last.
spec fn listed(lists: Seq<Seq<JsonView>>, doc: JsonView) -> Seq<Seq<JsonView>> {
    lists.update(lists.len() - 1, lists.last().push(doc))
}

/// What the lists become when the events are carried out, the last first.
spec fn outcome(
    s: State,
    kids: spec_fn(NodeId) -> Seq<NodeId>,
    events: Seq<EventView>,
    pending: Seq<JsonView>,
    lists: Seq<Seq<JsonView>>,
) -> Seq<Seq<JsonView>>
    decreases events.len(),
{
    if events.len() == 0 {
        lists
    } else {
        match events.last() {
            EventView::Enter(id) => outcome(
                s,
                kids,
                events.drop_last(),
                pending,
                listed(lists, json_to(s, kids, id, visit::height(s, id))),
            ),
            EventView::Exit => outcome(
                s,
                kids,
                events.drop_last(),
                pending.drop_last(),
                listed(
                    lists.drop_last(),
                    JsonView { children: lists.last(), ..pending.last() },
                ),
            ),
        }
    }
}

/// Children to be entered, the first last.
spec fn entered(ids: Seq<NodeId>) -> Seq<EventView> {
    Seq::new(ids.len(), |i: int| EventView::Enter(ids[ids.len() - 1 - i]))
}

/// Entering children puts their documents into the last list.
proof fn lemma_entered(
    s: State,
    kids: spec_fn(NodeId) -> Seq<NodeId>,
    events: Seq<EventView>,
    ids: Seq<NodeId>,
    fuel: nat,
    pending: Seq<JsonView>,
    lists: Seq<Seq<JsonView>>,
)
    requires
        lists.len() > 0,
        forall|i: int| 0 <= i < ids.len() ==> visit::height(s, #[trigger] ids[i]) == fuel,
    ensures
        outcome(s, kids, events + entered(ids), pending, lists) == outcome(
            s,
            kids,
            events,
            pending,
            lists.update(
                lists.len() - 1,
                lists.last() + Seq::new(ids.len(), |i: int| json_to(s, kids, ids[i], fuel)),
            ),
        ),
    decreases ids.len(),
{
    let all = events + entered(ids);
    let docs = Seq::new(ids.len(), |i: int| json_to(s, kids, ids[i], fuel));
    if ids.len() == 0 {
        assert(all =~= events);
        assert(lists.last() + docs =~= lists.last());
        assert(lists.update(lists.len() - 1, lists.last() + docs) =~= lists);
    } else {
        let rest = ids.drop_first();
        assert(all.drop_last() =~= events + entered(rest));
        assert(all.last() == EventView::Enter(ids[0]));
        assert(visit::height(s, ids[0]) == fuel);
        assert forall|i: int| 0 <= i < rest.len() implies visit::height(s, #[trigger] rest[i])
            == fuel by {
            assert(rest[i] == ids[i + 1]);
        }
        let first = json_to(s, kids, ids[0], fuel);
        let more = listed(lists, first);
        lemma_entered(s, kids, events, rest, fuel, pending, more);
        let others = Seq::new(rest.len(), |i: int| json_to(s, kids, rest[i], fuel));
        assert(more.last() + others =~= lists.last() + docs);
        assert(more.update(more.len() - 1, more.last() + others) =~= lists.update(
            lists.len() - 1,
            lists.last() + docs,
        ));
    }
}

/// Entering a node: its document is started, its children are entered, and then
/// it is finished.
proof fn lemma_enter(
    s: State,
    kids: spec_fn(NodeId) -> Seq<NodeId>,
    events: Seq<EventView>,
    id: NodeId,
    pending: Seq<JsonView>,
    lists: Seq<Seq<JsonView>>,
)
    requires
        s.links(),
        visit::arranges(s, kids),
        s.live(id),
        lists.len() > 0,
    ensures
        outcome(s, kids, events.push(EventView::Enter(id)), pending, lists) == outcome(
            s,
            kids,
            events.push(EventView::Exit) + entered(kids(id)),
            pending.push(json_leaf(s, id, Seq::empty())),
            lists.push(Seq::empty()),
        ),
{
    let list = kids(id);
    assert(s.node_ok(id));
    let fuel = (visit::height(s, id) - 1) as nat;
    assert forall|i: int| 0 <= i < list.len() implies visit::height(s, #[trigger] list[i])
        == fuel by {
        assert(list.contains(list[i]));
        assert(s.kids[id].contains(list[i]));
        let j = choose|j: int| 0 <= j < s.kids[id].len() && s.kids[id][j] == list[i];
        assert(s.child_ok(id, j));
        assert(s.node_ok(list[i]));
    }
    let leaf = json_leaf(s, id, Seq::empty());
    let docs = Seq::new(list.len(), |i: int| json_to(s, kids, list[i], fuel));
    let exit = events.push(EventView::Exit);
    let opened = lists.push(Seq::empty());
    lemma_entered(s, kids, exit, list, fuel, pending.push(leaf), opened);
    let filled = opened.update(opened.len() - 1, opened.last() + docs);
    assert(opened.last() + docs =~= docs);
    assert(filled =~= lists.push(docs));
    assert(exit.drop_last() =~= events);
    assert(pending.push(leaf).drop_last() =~= pending);
    assert(filled.drop_last() =~= lists);
    assert(json_to(s, kids, id, visit::height(s, id)).children =~= docs);
    assert(json_to(s, kids, id, visit::height(s, id)) == json_leaf(s, id, docs));
    assert(events.push(EventView::Enter(id)).drop_last() =~= events);
}

impl JsonNode {
    /// The document of a node without its children.
    fn leaf(tree: &Tree, id: NodeId, path: String) -> (doc: Self)
        requires
            tree@.links(),
            tree@.live(id),
            path@ == tree@.path_to(id),
        ensures
            json_view(doc) == json_leaf(tree@, id, Seq::empty()),
            doc.children@.len() == 0,
    {
        proof {
            assert(tree@.node_ok(id));
        }
        let node = tree.node(id);
        let doc = JsonNode {
            name: node.name.clone(),
            path,
            kind: kind_str(node.kind),
            logical_size: node.agg_logical,
            allocated_size: node.agg_allocated,
            files: node.agg_files,
            dirs: node.agg_dirs,
            modified: time::format_rfc3339(node.modified),
            children: Vec::new(),
        };
        proof {
            assert(json_view(doc).children =~= Seq::empty());
        }
        doc
    }
}

/// Puts the entries of children on the stack of events, the first on top.
fn push_entries(tree: &Tree, events: &mut Vec<Event>, kids: &Vec<NodeId>, parent: NodeId, path: &str)
    requires
        tree@.links(),
        tree@.live(parent),
        path@ == tree@.path_to(parent),
        forall|x: NodeId| #[trigger] kids@.contains(x) ==> tree@.kids[parent].contains(x),
        todo_ok(tree@, old(events)@),
    ensures
        event_views(final(events)@) == event_views(old(events)@) + entered(kids@),
        todo_ok(tree@, final(events)@),
{
    let mut k: usize = kids.len();
    let ghost before = event_views(events@);
    proof {
        assert(event_views(events@) =~= before + entered(kids@).take(0));
    }
    while k > 0
        invariant
            tree@.links(),
            tree@.live(parent),
            path@ == tree@.path_to(parent),
            forall|x: NodeId| #[trigger] kids@.contains(x) ==> tree@.kids[parent].contains(x),
            k <= kids@.len(),
            event_views(events@) == before + entered(kids@).take(kids@.len() - k),
            todo_ok(tree@, events@),
        decreases k,
    {
        k = k - 1;
        let c: NodeId = kids[k];
        proof {
            assert(kids@.contains(kids@[k as int]));
            lemma_child_path(tree@, parent, c);
            assert(tree@.node_ok(c));
        }
        let ghost mid = events@;
        let joined = text::join(path, tree.node(c).name.as_str());
        events.push(Event::Enter(Todo { id: c, path: joined }));
        proof {
            assert(event_views(events@) =~= event_views(mid).push(EventView::Enter(c)));
            let n = kids@.len() - k;
            assert(entered(kids@).take(n) =~= entered(kids@).take(n - 1).push(EventView::Enter(c)));
            assert(event_views(events@) =~= before + entered(kids@).take(n));
        }
    }
    proof {
        assert(entered(kids@).take(kids@.len() as int) =~= entered(kids@));
    }
}

/// Every node to be entered is live and comes with its path.
spec fn todo_ok(s: State, events: Seq<Event>) -> bool {
    forall|i: int|
        0 <= i < events.len() ==> ((#[trigger] events[i]) matches Event::Enter(todo) ==> s.live(
            todo.id,
        ) && todo.path@ == s.path_to(todo.id))
}

/// How many nodes are still to be entered, with all below them, and how many
/// documents are to be finished.
spec fn work(s: State, kids: spec_fn(NodeId) -> Seq<NodeId>, events: Seq<EventView>) -> nat
    decreases events.len(),
{
    if events.len() == 0 {
        0
    } else {
        work(s, kids, events.drop_last()) + match events.last() {
            EventView::Enter(id) => 2 * visit::walk(kids, id, 0, visit::height(s, id)).len(),
            EventView::Exit => 1,
        }
    }
}

proof fn lemma_walk_len(kids: spec_fn(NodeId) -> Seq<NodeId>, id: NodeId, a: nat, b: nat, fuel: nat)
    ensures
        visit::walk(kids, id, a, fuel).len() == visit::walk(kids, id, b, fuel).len(),
    decreases fuel, 0nat,
{
    if fuel > 0 {
        lemma_walk_all_len(kids, kids(id), a + 1, b + 1, (fuel - 1) as nat);
    }
}

proof fn lemma_walk_all_len(
    kids: spec_fn(NodeId) -> Seq<NodeId>,
    ids: Seq<NodeId>,
    a: nat,
    b: nat,
    fuel: nat,
)
    ensures
        visit::walk_all(kids, ids, a, fuel).len() == visit::walk_all(kids, ids, b, fuel).len(),
    decreases fuel, ids.len() + 1,
{
    if ids.len() > 0 {
        lemma_walk_len(kids, ids[0], a, b, fuel);
        lemma_walk_all_len(kids, ids.drop_first(), a, b, fuel);
    }
}

proof fn lemma_work_entered(
    s: State,
    kids: spec_fn(NodeId) -> Seq<NodeId>,
    events: Seq<EventView>,
    ids: Seq<NodeId>,
    fuel: nat,
)
    requires
        forall|i: int| 0 <= i < ids.len() ==> visit::height(s, #[trigger] ids[i]) == fuel,
    ensures
        work(s, kids, events + entered(ids)) == work(s, kids, events) + 2 * visit::walk_all(
            kids,
            ids,
            0,
            fuel,
        ).len(),
    decreases ids.len(),
{
    let all = events + entered(ids);
    if ids.len() == 0 {
        assert(all =~= events);
    } else {
        let rest = ids.drop_first();
        assert(all.drop_last() =~= events + entered(rest));
        assert(all.last() == EventView::Enter(ids[0]));
        assert forall|i: int| 0 <= i < rest.len() implies visit::height(s, #[trigger] rest[i])
            == fuel by {
            assert(rest[i] == ids[i + 1]);
        }
        lemma_work_entered(s, kids, events, rest, fuel);
    }
}

proof fn lemma_work_enter(
    s: State,
    kids: spec_fn(NodeId) -> Seq<NodeId>,
    events: Seq<EventView>,
    id: NodeId,
)
    requires
        s.links(),
        visit::arranges(s, kids),
        s.live(id),
    ensures
        work(s, kids, events.push(EventView::Exit) + entered(kids(id))) < work(
            s,
            kids,
            events.push(EventView::Enter(id)),
        ),
{
    let list = kids(id);
    assert(s.node_ok(id));
    let fuel = (visit::height(s, id) - 1) as nat;
    assert forall|i: int| 0 <= i < list.len() implies visit::height(s, #[trigger] list[i])
        == fuel by {
        assert(list.contains(list[i]));
        assert(s.kids[id].contains(list[i]));
        let j = choose|j: int| 0 <= j < s.kids[id].len() && s.kids[id][j] == list[i];
        assert(s.child_ok(id, j));
        assert(s.node_ok(list[i]));
    }
    let exit = events.push(EventView::Exit);
    let enter = events.push(EventView::Enter(id));
    lemma_work_entered(s, kids, exit, list, fuel);
    lemma_walk_all_len(kids, list, 0, 1, fuel);
    assert(exit.drop_last() =~= events);
    assert(enter.drop_last() =~= events);
    assert(visit::walk(kids, id, 0, visit::height(s, id)).len() == 1 + visit::walk_all(
        kids,
        list,
        1,
        fuel,
    ).len());
}

/// The number of documents to be finished.
spec fn exits(events: Seq<EventView>) -> nat
    decreases events.len(),
{
    if events.len() == 0 {
        0
    } else {
        exits(events.drop_last()) + match events.last() {
            EventView::Enter(_) => 0nat,
            EventView::Exit => 1,
        }
    }
}

proof fn lemma_exits_entered(events: Seq<EventView>, ids: Seq<NodeId>)
    ensures
        exits(events + entered(ids)) == exits(events),
    decreases ids.len(),
{
    let all = events + entered(ids);
    if ids.len() == 0 {
        assert(all =~= events);
    } else {
        assert(all.drop_last() =~= events + entered(ids.drop_first()));
        assert(all.last() == EventView::Enter(ids[0]));
        lemma_exits_entered(events, ids.drop_first());
    }
}

/// Builds the document of a subtree with a stack of events, so that the depth of
/// the tree does not matter.
fn build_tree(tree: &Tree, root: NodeId, options: ExportOptions) -> (doc: JsonNode)
    requires
        tree@.links(),
        tree@.live(root),
    ensures
        json_view(doc) == json_doc(tree@, root, options.size_mode),
{
    let ghost s = tree@;
    let ghost kids = by_size(s, options.size_mode);
    let ghost goal = json_doc(s, root, options.size_mode);
    let mut events: Vec<Event> = Vec::new();
    events.push(Event::Enter(Todo { id: root, path: tree.path(root) }));
    let mut pending: Vec<JsonNode> = Vec::new();
    let mut lists: Vec<Vec<JsonNode>> = Vec::new();
    lists.push(Vec::new());
    proof {
        lemma_by_size(s, options.size_mode);
        let ev = event_views(events@);
        assert(ev =~= seq![EventView::Enter(root)]);
        assert(ev.drop_last() =~= Seq::<EventView>::empty());
        let none = Seq::<JsonView>::empty();
        assert(list_views(lists@) =~= seq![none]) by {
            assert(json_views(lists@[0]@) =~= none);
        }
        assert(listed(seq![none], goal) =~= seq![seq![goal]]) by {
            assert(none.push(goal) =~= seq![goal]);
        }
        assert(json_views(pending@) =~= none);
        assert(outcome(s, kids, ev.drop_last(), none, seq![seq![goal]]) == seq![seq![goal]]);
        assert(outcome(s, kids, ev, none, seq![none]) == seq![seq![goal]]);
        assert(exits(ev.drop_last()) == 0);
        assert(exits(ev) == 0);
    }
    while events.len() > 0
        invariant
            s == tree@,
            s.links(),
            kids == by_size(s, options.size_mode),
            visit::arranges(s, kids),
            todo_ok(s, events@),
            pending@.len() == exits(event_views(events@)),
            lists@.len() == pending@.len() + 1,
            outcome(
                s,
                kids,
                event_views(events@),
                json_views(pending@),
                list_views(lists@),
            ) == seq![seq![goal]],
        decreases work(s, kids, event_views(events@)),
    {
        let ghost before = event_views(events@);
        let ghost pend = json_views(pending@);
        let ghost open = list_views(lists@);
        let event = events.pop().unwrap();
        proof {
            assert(event_views(events@) =~= before.drop_last());
            assert(before =~= before.drop_last().push(before.last()));
        }
        match event {
            Event::Enter(todo) => {
                let ghost less = event_views(events@);
                proof {
                    assert(s.live(todo.id));
                    lemma_enter(s, kids, less, todo.id, pend, open);
                    lemma_work_enter(s, kids, less, todo.id);
                    lemma_exits_entered(less.push(EventView::Exit), kids(todo.id));
                    assert(less.push(EventView::Exit).drop_last() =~= less);
                }
                events.push(Event::Exit);
                proof {
                    assert(event_views(events@) =~= less.push(EventView::Exit));
                }
                let doc = JsonNode::leaf(tree, todo.id, todo.path.clone());
                pending.push(doc);
                lists.push(Vec::new());
                proof {
                    assert(json_views(pending@) =~= pend.push(json_leaf(s, todo.id, Seq::empty())));
                    assert(list_views(lists@) =~= open.push(Seq::empty())) by {
                        assert(json_views(lists@[lists@.len() - 1]@) =~= Seq::empty());
                    }
                }
                let children = sorted_children(tree, todo.id, options.size_mode);
                push_entries(tree, &mut events, &children, todo.id, todo.path.as_str());
            },
            Event::Exit => {
                proof {
                    assert(before.last() == EventView::Exit);
                }
                let mut node = pending.pop().unwrap();
                let ghost bare = node;
                let done = lists.pop().unwrap();
                node.children = done;
                let mut parent = lists.pop().unwrap();
                let ghost siblings = parent@;
                parent.push(node);
                lists.push(parent);
                proof {
                    assert(json_views(pending@) =~= pend.drop_last());
                    assert(pend.last() == json_view(bare));
                    assert(open.last() == json_views(done@));
                    assert(json_view(node).children =~= json_views(done@));
                    let doc = JsonView { children: open.last(), ..pend.last() };
                    assert(json_view(node) == doc);
                    assert(json_views(parent@) =~= json_views(siblings).push(doc));
                    assert(list_views(lists@) =~= listed(open.drop_last(), doc));
                }
            },
        }
    }
    proof {
        assert(list_views(lists@) == seq![seq![goal]]);
        assert(list_views(lists@)[0] == seq![goal]);
        assert(json_views(lists@[0]@).len() == 1);
    }
    let mut roots = lists.pop().unwrap();
    proof {
        assert(json_views(roots@)[0] == goal);
    }
    roots.pop().unwrap()
}

/// The document of the subtree of `root`, siblings by descending allocated size.
pub fn export_json(tree: &Tree, root: NodeId) -> (r: Result<JsonNode, ExportError>)
    requires
        tree@.wf(),
    ensures
        match r {
            Ok(doc) => tree@.live(root) && json_view(doc) == json_doc(
                tree@,
                root,
                SizeMode::Allocated,
            ),
            Err(e) => !tree@.live(root) && e == ExportError::InvalidRoot(root),
        },
{
    export_json_with(tree, root, ExportOptions::default())
}

/// The document of the subtree of `root`.
pub fn export_json_with(tree: &Tree, root: NodeId, options: ExportOptions) -> (r: Result<
    JsonNode,
    ExportError,
>)
    requires
        tree@.wf(),
    ensures
        match r {
            Ok(doc) => tree@.live(root) && json_view(doc) == json_doc(
                tree@,
                root,
                options.size_mode,
            ),
            Err(e) => !tree@.live(root) && e == ExportError::InvalidRoot(root),
        },
{
    validate_root(tree, root)?;
    Ok(build_tree(tree, root, options))
}

/// An export lists the node it starts at and every node below it, each once.
pub proof fn law_every_node_once(s: State, root: NodeId, mode: SizeMode)
    requires
        s.wf(),
        s.live(root),
    ensures
        visit::ids(visit::visits(s, by_size(s, mode), root)).no_duplicates(),
        forall|x: NodeId| #[trigger]
            visit::ids(visit::visits(s, by_size(s, mode), root)).contains(x) <==> s.within(x, root),
{
    lemma_by_size(s, mode);
    visit::law_visits(s, by_size(s, mode), root);
}

/// Of two siblings the larger one comes first, and of two of the same size the
/// one that comes first in the tree.
pub proof fn law_larger_first(s: State, p: NodeId, mode: SizeMode, i: int, j: int)
    requires
        s.links(),
        s.live(p),
        0 <= i < j < by_size(s, mode)(p).len(),
    ensures
        ({
            let a = by_size(s, mode)(p)[i];
            let b = by_size(s, mode)(p)[j];
            let x = size_of(s.nodes[a as int], mode);
            let y = size_of(s.nodes[b as int], mode);
            x > y || (x == y && s.kids[p].index_of(a) < s.kids[p].index_of(b))
        }),
{
    assert(s.node_ok(p));
    let ks = s.kids[p];
    let keys = size_keys(s, ks, mode);
    let order = sort::ranks::<Largest>(keys);
    sort::lemma_ranks::<Largest>(keys);
    let before = sort::no_later::<Largest>(keys);
    assert(before(order[i], order[j]));
    assert(order[i] != order[j]);
    assert(ks.index_of(ks[order[i]]) == order[i]) by {
        let k = ks.index_of(ks[order[i]]);
        assert(ks.contains(ks[order[i]]));
        assert(0 <= k < ks.len() && ks[k] == ks[order[i]]);
    }
    assert(ks.index_of(ks[order[j]]) == order[j]) by {
        let k = ks.index_of(ks[order[j]]);
        assert(ks.contains(ks[order[j]]));
        assert(0 <= k < ks.len() && ks[k] == ks[order[j]]);
    }
}

} // verus!
