//! What holds between the exports of one tree: the CSV file lists the nodes of
//! the JSON document, and documents by different sizes differ in order only.
use vstd::prelude::*;

use crate::export;
use crate::export::{JsonView, SizeMode};
use crate::model::State;
use crate::node::NodeKind;
use crate::sort;
use crate::text;
use crate::time;
use crate::visit;
use crate::visit::Visit;
use crate::NodeId;

verus! {

/// The CSV row of what a document says of its node.
pub open spec fn doc_row(j: JsonView) -> Seq<Seq<char>> {
    seq![
        j.path,
        j.name,
        j.kind,
        text::dec(j.logical_size as nat),
        text::dec(j.allocated_size as nat),
        text::dec(j.files as nat),
        text::dec(j.dirs as nat),
        j.modified,
    ]
}

/// The rows of a document, each node before the ones inside it.
pub open spec fn doc_rows(j: JsonView) -> Seq<Seq<Seq<char>>>
    decreases j,
{
    seq![doc_row(j)] + docs_rows(j.children)
}

/// The rows of several documents, one after another.
pub open spec fn docs_rows(js: Seq<JsonView>) -> Seq<Seq<Seq<char>>>
    decreases js,
{
    if js.len() == 0 {
        Seq::empty()
    } else {
        docs_rows(js.drop_last()) + doc_rows(js.last())
    }
}

/// The rows of the nodes of a walk.
pub open spec fn visit_rows(s: State, w: Seq<Visit>) -> Seq<Seq<Seq<char>>> {
    Seq::new(w.len(), |i: int| export::csv_row(s, w[i].id))
}

/// CSV lines one after another.
pub open spec fn csv_lines(rows: Seq<Seq<Seq<char>>>) -> Seq<u8>
    decreases rows.len(),
{
    if rows.len() == 0 {
        Seq::empty()
    } else {
        export::csv_line(rows[0]) + csv_lines(rows.drop_first())
    }
}

/// The documents of listed nodes.
spec fn docs(
    s: State,
    kids: spec_fn(NodeId) -> Seq<NodeId>,
    ids: Seq<NodeId>,
    fuel: nat,
) -> Seq<JsonView> {
    Seq::new(ids.len(), |i: int| export::json_to(s, kids, ids[i], fuel))
}

proof fn lemma_docs_first(js: Seq<JsonView>)
    requires
        js.len() > 0,
    ensures
        docs_rows(js) == doc_rows(js[0]) + docs_rows(js.drop_first()),
    decreases js.len(),
{
    if js.len() == 1 {
        assert(js.drop_last() =~= Seq::<JsonView>::empty());
        assert(js.drop_first() =~= Seq::<JsonView>::empty());
        assert(docs_rows(js.drop_last()) == Seq::<Seq<Seq<char>>>::empty());
        assert(docs_rows(js.drop_first()) == Seq::<Seq<Seq<char>>>::empty());
        assert(docs_rows(js) =~= doc_rows(js[0]) + docs_rows(js.drop_first()));
    } else {
        lemma_docs_first(js.drop_last());
        assert(js.drop_last().drop_first() =~= js.drop_first().drop_last());
        assert(js.drop_first().last() == js.last());
        assert(docs_rows(js) =~= doc_rows(js[0]) + docs_rows(js.drop_first()));
    }
}

/// The document of a node has the rows of the walk from that node.
proof fn lemma_doc_rows(
    s: State,
    kids: spec_fn(NodeId) -> Seq<NodeId>,
    id: NodeId,
    depth: nat,
)
    requires
        s.links(),
        s.live(id),
        visit::arranges(s, kids),
    ensures
        doc_rows(export::json_to(s, kids, id, visit::height(s, id))) == visit_rows(
            s,
            visit::walk(kids, id, depth, visit::height(s, id)),
        ),
    decreases visit::height(s, id), 0nat,
{
    let fuel = visit::height(s, id);
    assert(s.node_ok(id));
    assert(fuel > 0);
    let ks = kids(id);
    let j = export::json_to(s, kids, id, fuel);
    assert forall|i: int| 0 <= i < ks.len() implies s.live(#[trigger] ks[i]) && visit::height(
        s,
        ks[i],
    ) == fuel - 1 by {
        assert(ks.contains(ks[i]));
        let k = s.kids[id].index_of(ks[i]);
        assert(s.kids[id][k] == ks[i]);
        assert(s.child_ok(id, k));
        assert(s.node_ok(ks[i]));
    }
    lemma_docs_rows(s, kids, ks, depth + 1, (fuel - 1) as nat);
    assert(j.children =~= docs(s, kids, ks, (fuel - 1) as nat));
    assert(doc_row(j) =~= export::csv_row(s, id));
    assert(doc_rows(j) =~= visit_rows(s, visit::walk(kids, id, depth, fuel)));
}

proof fn lemma_docs_rows(
    s: State,
    kids: spec_fn(NodeId) -> Seq<NodeId>,
    ids: Seq<NodeId>,
    depth: nat,
    fuel: nat,
)
    requires
        s.links(),
        visit::arranges(s, kids),
        forall|i: int|
            0 <= i < ids.len() ==> s.live(#[trigger] ids[i]) && visit::height(s, ids[i]) == fuel,
    ensures
        docs_rows(docs(s, kids, ids, fuel)) == visit_rows(
            s,
            visit::walk_all(kids, ids, depth, fuel),
        ),
    decreases fuel, ids.len() + 1,
{
    let js = docs(s, kids, ids, fuel);
    if ids.len() == 0 {
        assert(docs_rows(js) =~= visit_rows(s, visit::walk_all(kids, ids, depth, fuel)));
    } else {
        let rest = ids.drop_first();
        assert(s.live(ids[0]));
        assert forall|i: int| 0 <= i < rest.len() implies s.live(#[trigger] rest[i])
            && visit::height(s, rest[i]) == fuel by {
            assert(rest[i] == ids[i + 1]);
        }
        lemma_doc_rows(s, kids, ids[0], depth);
        lemma_docs_rows(s, kids, rest, depth, fuel);
        lemma_docs_first(js);
        assert(js.drop_first() =~= docs(s, kids, rest, fuel));
        assert(docs_rows(js) =~= visit_rows(s, visit::walk_all(kids, ids, depth, fuel)));
    }
}

proof fn lemma_lines(s: State, w: Seq<Visit>)
    ensures
        export::csv_rows(s, w) == csv_lines(visit_rows(s, w)),
    decreases w.len(),
{
    if w.len() > 0 {
        lemma_lines(s, w.drop_first());
        assert(visit_rows(s, w).drop_first() =~= visit_rows(s, w.drop_first()));
        assert(visit_rows(s, w)[0] == export::csv_row(s, w[0].id));
    }
}

/// The CSV file and the JSON document of a tree agree node by node: the rows of
/// the file are those of the document, in the order in which its nodes stand.
pub proof fn law_csv_agrees_with_json(s: State, root: NodeId, mode: SizeMode)
    requires
        s.wf(),
        s.live(root),
    ensures
        export::csv_file(s, root, mode) == seq![0xefu8, 0xbbu8, 0xbfu8] + export::csv_line(
            export::csv_header(),
        ) + csv_lines(doc_rows(export::json_doc(s, root, mode))),
        doc_rows(export::json_doc(s, root, mode)) == visit_rows(
            s,
            visit::visits(s, export::by_size(s, mode), root),
        ),
{
    export::lemma_by_size(s, mode);
    lemma_doc_rows(s, export::by_size(s, mode), root, 0);
    lemma_lines(s, visit::visits(s, export::by_size(s, mode), root));
}

/// Inside the document of a node are those of its children and no others, by
/// descending size.
pub proof fn law_documents_nest(s: State, id: NodeId, mode: SizeMode)
    requires
        s.wf(),
        s.live(id),
    ensures
        export::json_doc(s, id, mode).children == Seq::new(
            s.kids[id].len(),
            |i: int| export::json_doc(s, export::by_size(s, mode)(id)[i], mode),
        ),
{
    let kids = export::by_size(s, mode);
    let ks = kids(id);
    let fuel = visit::height(s, id);
    assert(s.node_ok(id));
    export::lemma_by_size(s, mode);
    sort::lemma_ranks::<export::Largest>(export::size_keys(s, s.kids[id], mode));
    assert forall|i: int| 0 <= i < ks.len() implies visit::height(s, #[trigger] ks[i]) == fuel
        - 1 by {
        assert(ks.contains(ks[i]));
        let k = s.kids[id].index_of(ks[i]);
        assert(s.kids[id][k] == ks[i]);
        assert(s.child_ok(id, k));
        assert(s.node_ok(ks[i]));
    }
    let children = export::json_doc(s, id, mode).children;
    assert(children =~= docs(s, kids, ks, (fuel - 1) as nat));
    assert(children =~= Seq::new(
        s.kids[id].len(),
        |i: int| export::json_doc(s, export::by_size(s, mode)(id)[i], mode),
    ));
}

/// Whether a list holds each of the numbers below its length once.
pub open spec fn is_order(p: Seq<int>) -> bool {
    &&& p.no_duplicates()
    &&& forall|i: int| 0 <= i < p.len() ==> 0 <= #[trigger] p[i] < p.len()
}

/// Whether two documents say the same of the same nodes, one inside another
/// alike, and differ in the order of siblings at most.
pub open spec fn reordered(a: JsonView, b: JsonView) -> bool
    decreases a,
{
    &&& JsonView { children: Seq::empty(), ..a } == JsonView { children: Seq::empty(), ..b }
    &&& a.children.len() == b.children.len()
    &&& exists|p: Seq<int>|
        #![trigger is_order(p)]
        is_order(p) && p.len() == a.children.len() && forall|i: int|
            #![trigger a.children[i]]
            0 <= i < a.children.len() ==> reordered(a.children[i], b.children[p[i]])
}

proof fn lemma_reordered(
    s: State,
    f: spec_fn(NodeId) -> Seq<NodeId>,
    g: spec_fn(NodeId) -> Seq<NodeId>,
    id: NodeId,
    fuel: nat,
)
    requires
        s.links(),
        s.live(id),
        visit::arranges(s, f),
        visit::arranges(s, g),
    ensures
        reordered(export::json_to(s, f, id, fuel), export::json_to(s, g, id, fuel)),
    decreases fuel,
{
    let a = export::json_to(s, f, id, fuel);
    let b = export::json_to(s, g, id, fuel);
    assert(s.node_ok(id));
    if fuel == 0 {
        let p = Seq::<int>::empty();
        assert(is_order(p));
        assert(reordered(a, b));
    } else {
        let less = (fuel - 1) as nat;
        let p = Seq::new(f(id).len(), |i: int| g(id).index_of(f(id)[i]));
        assert forall|x: NodeId| #[trigger] f(id).contains(x) <==> g(id).contains(x) by {
            assert(f(id).contains(x) <==> s.kids[id].contains(x));
            assert(g(id).contains(x) <==> s.kids[id].contains(x));
        }
        assert(f(id).to_set() =~= g(id).to_set());
        f(id).unique_seq_to_set();
        g(id).unique_seq_to_set();
        assert forall|i: int| 0 <= i < p.len() implies 0 <= #[trigger] p[i] < p.len() && g(id)[p[i]]
            == f(id)[i] by {
            assert(f(id).contains(f(id)[i]));
            assert(g(id).contains(f(id)[i]));
        }
        assert(p.no_duplicates()) by {
            assert forall|i: int, j: int| 0 <= i < j < p.len() implies p[i] != p[j] by {
                assert(g(id)[p[i]] == f(id)[i]);
                assert(g(id)[p[j]] == f(id)[j]);
            }
        }
        assert(is_order(p));
        assert forall|i: int|
            #![trigger a.children[i]]
            0 <= i < a.children.len() implies reordered(a.children[i], b.children[p[i]]) by {
            let x = f(id)[i];
            assert(f(id).contains(x));
            let k = s.kids[id].index_of(x);
            assert(s.kids[id][k] == x);
            assert(s.child_ok(id, k));
            assert(0 <= p[i] < p.len() && g(id)[p[i]] == x);
            lemma_reordered(s, f, g, x, less);
            assert(a.children[i] == export::json_to(s, f, x, less));
            assert(b.children[p[i]] == export::json_to(s, g, x, less));
        }
        assert(reordered(a, b));
    }
}

/// The documents of a tree by allocated and by logical size hold the same nodes
/// inside one another, and differ in the order of siblings at most.
pub proof fn law_modes_differ_in_order(s: State, root: NodeId, a: SizeMode, b: SizeMode)
    requires
        s.wf(),
        s.live(root),
    ensures
        reordered(export::json_doc(s, root, a), export::json_doc(s, root, b)),
{
    export::lemma_by_size(s, a);
    export::lemma_by_size(s, b);
    lemma_reordered(s, export::by_size(s, a), export::by_size(s, b), root, visit::height(s, root));
}

/// The names of the columns and the values of a row stand at the same places.
pub proof fn law_csv_columns(s: State, id: NodeId, k: int)
    requires
        0 <= k < 8,
    ensures
        ({
            let n = s.nodes[id as int];
            let row = export::csv_row(s, id);
            let header = export::csv_header();
            &&& row.len() == 8
            &&& header.len() == 8
            &&& k == 0 ==> header[k] == "path"@ && row[k] == s.path_to(id)
            &&& k == 1 ==> header[k] == "name"@ && row[k] == n.name@
            &&& k == 2 ==> header[k] == "kind"@ && row[k] == export::kind_word(n.kind)
            &&& k == 3 ==> header[k] == "logical_size"@ && row[k] == text::dec(n.agg_logical as nat)
            &&& k == 4 ==> header[k] == "allocated_size"@ && row[k] == text::dec(
                n.agg_allocated as nat,
            )
            &&& k == 5 ==> header[k] == "files"@ && row[k] == text::dec(n.agg_files as nat)
            &&& k == 6 ==> header[k] == "dirs"@ && row[k] == text::dec(n.agg_dirs as nat)
            &&& k == 7 ==> header[k] == "modified"@ && row[k] == time::rfc3339(n.modified as int)
        }),
{
}

/// A document gives each value under the name that it has in the tree.
pub proof fn law_document_values(s: State, id: NodeId, mode: SizeMode)
    ensures
        ({
            let n = s.nodes[id as int];
            let doc = export::json_doc(s, id, mode);
            &&& doc.name == n.name@
            &&& doc.path == s.path_to(id)
            &&& doc.kind == export::kind_word(n.kind)
            &&& doc.logical_size == n.agg_logical
            &&& doc.allocated_size == n.agg_allocated
            &&& doc.files == n.agg_files
            &&& doc.dirs == n.agg_dirs
            &&& doc.modified == time::rfc3339(n.modified as int)
        }),
{
}

/// Each kind of node has its own word.
pub proof fn law_kind_words(kind: NodeKind)
    ensures
        kind == NodeKind::File <==> export::kind_word(kind) == "file"@,
        kind == NodeKind::Directory <==> export::kind_word(kind) == "directory"@,
        kind == NodeKind::Ads <==> export::kind_word(kind) == "ads"@,
        kind == NodeKind::FreeSpace <==> export::kind_word(kind) == "free_space"@,
        kind == NodeKind::UnknownSpace <==> export::kind_word(kind) == "unknown_space"@,
        kind == NodeKind::Unaccessible <==> export::kind_word(kind) == "unaccessible"@,
{
    reveal_strlit("file");
    reveal_strlit("directory");
    reveal_strlit("ads");
    reveal_strlit("free_space");
    reveal_strlit("unknown_space");
    reveal_strlit("unaccessible");
    assert("file"@.len() == 4 && "directory"@.len() == 9 && "ads"@.len() == 3 && "free_space"@.len()
        == 10 && "unknown_space"@.len() == 13 && "unaccessible"@.len() == 12);
}

/// In the allocated mode the larger allocated size of a subtree comes first, in the
/// logical mode the larger logical size.
pub proof fn law_order_by_mode(s: State, p: NodeId, i: int, j: int)
    requires
        s.links(),
        s.live(p),
        0 <= i < j,
    ensures
        j < export::by_size(s, SizeMode::Allocated)(p).len() ==> s.nodes[export::by_size(
            s,
            SizeMode::Allocated,
        )(p)[i] as int].agg_allocated >= s.nodes[export::by_size(s, SizeMode::Allocated)(
            p,
        )[j] as int].agg_allocated,
        j < export::by_size(s, SizeMode::Logical)(p).len() ==> s.nodes[export::by_size(
            s,
            SizeMode::Logical,
        )(p)[i] as int].agg_logical >= s.nodes[export::by_size(s, SizeMode::Logical)(
            p,
        )[j] as int].agg_logical,
{
    if j < export::by_size(s, SizeMode::Allocated)(p).len() {
        export::law_larger_first(s, p, SizeMode::Allocated, i, j);
    }
    if j < export::by_size(s, SizeMode::Logical)(p).len() {
        export::law_larger_first(s, p, SizeMode::Logical, i, j);
    }
}

/// Bytes with every pair of quotes taken for one.
pub open spec fn halved(s: Seq<u8>) -> Seq<u8>
    decreases s.len(),
{
    if s.len() == 0 {
        Seq::empty()
    } else if s.len() >= 2 && s.last() == 34 && s[s.len() - 2] == 34 {
        halved(s.take(s.len() - 2)).push(34)
    } else {
        halved(s.drop_last()).push(s.last())
    }
}

proof fn lemma_halved(s: Seq<u8>)
    ensures
        halved(export::doubled(s)) == s,
    decreases s.len(),
{
    if s.len() > 0 {
        let d = export::doubled(s.drop_last());
        lemma_halved(s.drop_last());
        if s.last() == 34 {
            let e = d.push(34).push(34);
            assert(e.take(e.len() - 2) =~= d);
        } else {
            let e = d.push(s.last());
            assert(e.drop_last() =~= d);
        }
        assert(s.drop_last().push(s.last()) =~= s);
    }
}

/// A field with a quote, a comma or a line break stands between quotes, and its own
/// quotes are doubled, so that it can be read back; any other field stands as it
/// is. A line ends in a carriage return and a line feed.
pub proof fn law_csv_quotes(s: Seq<u8>)
    ensures
        ({
            let f = export::csv_field(s);
            let special = s.contains(34) || s.contains(44) || s.contains(10) || s.contains(13);
            &&& !special ==> f == s
            &&& special ==> {
                &&& f.len() >= 2
                &&& f[0] == 34
                &&& f[f.len() - 1] == 34
                &&& halved(f.subrange(1, f.len() - 1)) == s
            }
        }),
        forall|fields: Seq<Seq<char>>|
            {
                let line = #[trigger] export::csv_line(fields);
                line.len() >= 2 && line[line.len() - 2] == 13 && line[line.len() - 1] == 10
            },
{
    let f = export::csv_field(s);
    let special = s.contains(34) || s.contains(44) || s.contains(10) || s.contains(13);
    if exists|i: int| 0 <= i < s.len() && export::is_special(#[trigger] s[i]) {
        let i = choose|i: int| 0 <= i < s.len() && export::is_special(#[trigger] s[i]);
        assert(s.contains(s[i]));
        lemma_halved(s);
        assert(f.subrange(1, f.len() - 1) =~= export::doubled(s));
    } else if special {
        let b: u8 = if s.contains(34) {
            34
        } else if s.contains(44) {
            44
        } else if s.contains(10) {
            10
        } else {
            13
        };
        let i = choose|i: int| 0 <= i < s.len() && s[i] == b;
        assert(export::is_special(s[i]));
    }
}

/// The fields of a line stand one after another with commas between them.
pub proof fn law_csv_commas(fields: Seq<Seq<char>>, last: Seq<char>)
    requires
        fields.len() > 0,
    ensures
        export::csv_fields(fields.push(last)) == export::csv_fields(fields) + seq![44u8]
            + export::csv_field(vstd::utf8::encode_utf8(last)),
        export::csv_fields(seq![last]) == export::csv_field(vstd::utf8::encode_utf8(last)),
{
    assert(fields.push(last).drop_last() =~= fields);
    assert(export::csv_fields(fields).push(44) =~= export::csv_fields(fields) + seq![44u8]);
}

} // verus!
