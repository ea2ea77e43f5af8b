//! Times, tables and documents, from trees that are built in place.
use rss::export::{
    export_csv, export_csv_with, export_json, export_json_with, ExportOptions, JsonNode, SizeMode,
};
use rss::export_error::ExportError;
use rss::node::{NodeKind, NodeParams};
use rss::time::{filetime_from_unix, format_rfc3339};
use rss::tree::Tree;
use rss::NodeId;

const T0: i64 = 1_700_000_000; // 2023-11-14T22:13:20Z

#[test]
fn unix_epoch() {
    assert_eq!(
        format_rfc3339(filetime_from_unix(0)),
        "1970-01-01T00:00:00Z"
    );
}

#[test]
fn known_date() {
    assert_eq!(
        format_rfc3339(filetime_from_unix(1_700_000_000)),
        "2023-11-14T22:13:20Z"
    );
}

#[test]
fn pre_epoch() {
    // 1900-01-01 00:00:00 UTC.
    assert_eq!(
        format_rfc3339(filetime_from_unix(-2_208_988_800)),
        "1900-01-01T00:00:00Z"
    );
}

#[test]
fn subsecond_precision() {
    // One 100-ns tick past the epoch, and 1.5 s past the epoch.
    assert_eq!(
        format_rfc3339(filetime_from_unix(0) + 1),
        "1970-01-01T00:00:00.0000001Z"
    );
    assert_eq!(
        format_rfc3339(filetime_from_unix(1) + 5_000_000),
        "1970-01-01T00:00:01.5Z"
    );
}

/// ```text
/// root/                            (dir)
/// ├── big.bin                      10_000 logical / 16_384 allocated
/// ├── ユニコード/                   (dir)
/// │   └── データ.bin                2_048 / 8_192
/// └── docs/                        (dir)
///     ├── report,final.txt          1_000 / 4_096
///     └── say "hi".txt              0 / 0 (zero-byte)
/// ```
fn golden_tree() -> (Tree, NodeId) {
    let mut tree = Tree::with_root(
        NodeParams::named("root", NodeKind::Directory).modified(filetime_from_unix(T0)),
    );
    let root = tree.root().unwrap();

    let docs = tree.add_child(
        root,
        NodeParams::named("docs", NodeKind::Directory).modified(filetime_from_unix(T0 + 200)),
    );
    tree.add_child(
        docs,
        NodeParams::named("report,final.txt", NodeKind::File)
            .sizes(1_000, 4_096)
            .modified(filetime_from_unix(T0 + 300)),
    );
    tree.add_child(
        docs,
        NodeParams::named("say \"hi\".txt", NodeKind::File)
            .sizes(0, 0)
            .modified(filetime_from_unix(T0 + 400)),
    );

    let unicode = tree.add_child(
        root,
        NodeParams::named("ユニコード", NodeKind::Directory).modified(filetime_from_unix(T0 + 500)),
    );
    tree.add_child(
        unicode,
        NodeParams::named("データ.bin", NodeKind::File)
            .sizes(2_048, 8_192)
            .modified(filetime_from_unix(T0 + 600)),
    );

    tree.add_child(
        root,
        NodeParams::named("big.bin", NodeKind::File)
            .sizes(10_000, 16_384)
            .modified(filetime_from_unix(T0 + 100)),
    );

    (tree, root)
}

const GOLDEN_CSV: &str =
    "\u{FEFF}path,name,kind,logical_size,allocated_size,files,dirs,modified\r\n\
root,root,directory,13048,28672,4,3,2023-11-14T22:13:20Z\r\n\
root/big.bin,big.bin,file,10000,16384,1,0,2023-11-14T22:15:00Z\r\n\
root/ユニコード,ユニコード,directory,2048,8192,1,1,2023-11-14T22:21:40Z\r\n\
root/ユニコード/データ.bin,データ.bin,file,2048,8192,1,0,2023-11-14T22:23:20Z\r\n\
root/docs,docs,directory,1000,4096,2,1,2023-11-14T22:16:40Z\r\n\
\"root/docs/report,final.txt\",\"report,final.txt\",file,1000,4096,1,0,2023-11-14T22:18:20Z\r\n\
\"root/docs/say \"\"hi\"\".txt\",\"say \"\"hi\"\".txt\",file,0,0,1,0,2023-11-14T22:20:00Z\r\n";

#[test]
fn csv_byte_exact_golden() {
    let (tree, root) = golden_tree();
    let mut out = Vec::new();
    export_csv(&tree, root, &mut out).unwrap();
    let actual = String::from_utf8(out).unwrap();
    assert_eq!(actual, GOLDEN_CSV);
}

#[test]
fn csv_size_mode_logical_changes_sibling_order() {
    let (tree, root) = golden_tree();
    let mut out = Vec::new();
    export_csv_with(
        &tree,
        root,
        ExportOptions {
            size_mode: SizeMode::Logical,
        },
        &mut out,
    )
    .unwrap();
    let text = String::from_utf8(out).unwrap();
    let rows: Vec<&str> = text.lines().collect();
    // Logical sizes: big.bin 10_000, ユニコード 2_048, docs 1_000.
    // Row 0 is the header, row 1 the root.
    assert!(rows[2].starts_with("root/big.bin,"));
    assert!(rows[3].starts_with("root/ユニコード,"));
    assert!(rows[5].starts_with("root/docs,"));
}

#[test]
fn sibling_ties_keep_tree_child_order() {
    // The sort is stable: equal-sized siblings keep the order the tree's
    // children have (most recently added first).
    let mut tree = Tree::with_root(NodeParams::named("root", NodeKind::Directory));
    let root = tree.root().unwrap();
    for name in ["a", "b", "c"] {
        tree.add_child(
            root,
            NodeParams::named(name, NodeKind::File).sizes(100, 100),
        );
    }
    let mut out = Vec::new();
    export_csv(&tree, root, &mut out).unwrap();
    let text = String::from_utf8(out).unwrap();
    let names: Vec<&str> = text
        .lines()
        .skip(2) // header + root
        .map(|row| row.split(',').nth(1).unwrap())
        .collect();
    assert_eq!(names, ["c", "b", "a"]);
}

#[test]
fn csv_allocated_size_includes_ads() {
    let mut tree = Tree::with_root(NodeParams::named("root", NodeKind::Directory));
    let root = tree.root().unwrap();
    let mut params = NodeParams::named("streamed.dat", NodeKind::File);
    params.logical_size = 4_096;
    params.allocated_size = 4_096;
    params.ads_size = 2_048;
    tree.add_child(root, params);

    let mut out = Vec::new();
    export_csv(&tree, root, &mut out).unwrap();
    let text = String::from_utf8(out).unwrap();
    let row = text.lines().nth(2).unwrap();
    // allocated_size = 4_096 own + 2_048 ADS = 6_144. A time of 0 is the
    // epoch of file times, 1601-01-01.
    assert_eq!(
        row,
        "root/streamed.dat,streamed.dat,file,4096,6144,1,0,1601-01-01T00:00:00Z"
    );
}

fn names(list: &[JsonNode]) -> Vec<&str> {
    list.iter().map(|c| c.name.as_str()).collect()
}

#[test]
fn json_round_trip_structure() {
    let (tree, root) = golden_tree();
    let doc = export_json(&tree, root).unwrap();

    // Root fields.
    assert_eq!(doc.name, "root");
    assert_eq!(doc.path, "root");
    assert_eq!(doc.kind, "directory");
    assert_eq!(doc.logical_size, 13_048);
    assert_eq!(doc.allocated_size, 28_672);
    assert_eq!(doc.files, 4);
    assert_eq!(doc.dirs, 3);
    assert_eq!(doc.modified, "2023-11-14T22:13:20Z");

    // Children sorted by descending allocated size.
    let children = &doc.children;
    assert_eq!(names(children), ["big.bin", "ユニコード", "docs"]);

    // Nested structure; comma/quote and unicode names intact.
    let docs = &children[2];
    assert_eq!(docs.path, "root/docs");
    let docs_children = &docs.children;
    assert_eq!(names(docs_children), ["report,final.txt", "say \"hi\".txt"]);
    assert_eq!(docs_children[1].logical_size, 0);
    assert_eq!(docs_children[1].allocated_size, 0);

    let data = &children[1].children[0];
    assert_eq!(data.name, "データ.bin");
    assert_eq!(data.path, "root/ユニコード/データ.bin");
    assert_eq!(data.children.len(), 0);
}

#[test]
fn json_size_mode_logical_changes_sibling_order() {
    let (tree, root) = golden_tree();
    let doc = export_json_with(
        &tree,
        root,
        ExportOptions {
            size_mode: SizeMode::Logical,
        },
    )
    .unwrap();
    assert_eq!(names(&doc.children), ["big.bin", "ユニコード", "docs"]);
}

#[test]
fn golden_invalid_root_is_typed_error() {
    let (tree, _root) = golden_tree();
    let mut out = Vec::new();
    let err = export_csv(&tree, 999, &mut out).unwrap_err();
    assert!(matches!(err, ExportError::InvalidRoot(999)));
    assert!(out.is_empty());

    let empty = Tree::new();
    let err = export_json(&empty, 0).err().unwrap();
    assert!(matches!(err, ExportError::InvalidRoot(0)));
}

#[test]
fn deep_nesting_does_not_overflow() {
    // A 5k-deep chain: traversal and path building go step by step.
    let mut tree = Tree::with_root(NodeParams::named("d", NodeKind::Directory));
    let mut parent = tree.root().unwrap();
    for _ in 1..5_000 {
        parent = tree.add_child(parent, NodeParams::named("d", NodeKind::Directory));
    }
    let root = tree.root().unwrap();
    let mut csv_out = Vec::new();
    export_csv(&tree, root, &mut csv_out).unwrap();
    assert_eq!(csv_out.iter().filter(|&&b| b == b'\n').count(), 5_001);
    let mut depth = 0;
    let mut doc = export_json(&tree, root).unwrap();
    // The document is taken apart from the top, level by level.
    while let Some(child) = doc.children.pop() {
        depth += 1;
        doc = child;
    }
    assert_eq!(depth, 4_999);
}

#[test]
fn fields_of_tables_are_quoted_where_they_must_be() {
    let mut tree = Tree::with_root(NodeParams::named("r", NodeKind::Directory));
    let root = tree.root().unwrap();
    tree.add_child(root, NodeParams::named("line\nbreak", NodeKind::Unaccessible));
    let mut out = vec![b'#'];
    export_csv(&tree, root, &mut out).unwrap();
    let text = String::from_utf8(out).unwrap();
    assert!(text.starts_with("#\u{FEFF}path,name"));
    assert!(text.contains("\"r/line\nbreak\",\"line\nbreak\",unaccessible,0,0,0,0,"));
}

#[test]
fn exports_start_at_any_node_of_the_tree() {
    let mut tree = Tree::with_root(NodeParams::named("r", NodeKind::Directory));
    let root = tree.root().unwrap();
    let a = tree.add_child(root, NodeParams::named("a", NodeKind::File).sizes(1, 1));
    let b = tree.add_child(root, NodeParams::named("b", NodeKind::File).sizes(2, 2));
    tree.remove_subtree(a);
    // Two nodes are left, and the second of them has the last number.
    assert_eq!((tree.len(), b), (2, 2));
    assert!(tree.is_live(b) && !tree.is_live(a) && !tree.is_live(3));

    let mut out = Vec::new();
    export_csv(&tree, b, &mut out).unwrap();
    assert_eq!(
        String::from_utf8(out).unwrap(),
        "\u{FEFF}path,name,kind,logical_size,allocated_size,files,dirs,modified\r\n\
r/b,b,file,2,2,1,0,1601-01-01T00:00:00Z\r\n"
    );
    assert_eq!(export_json(&tree, b).unwrap().path, "r/b");

    let mut out = Vec::new();
    assert!(matches!(
        export_csv(&tree, a, &mut out),
        Err(ExportError::InvalidRoot(1))
    ));
    assert!(out.is_empty());
    assert!(matches!(export_json(&tree, a), Err(ExportError::InvalidRoot(1))));
}

/// The lines that a document has in a table.
fn lines_of(doc: &JsonNode, out: &mut Vec<String>) {
    out.push(format!(
        "{},{},{},{},{},{},{},{}",
        doc.path,
        doc.name,
        doc.kind,
        doc.logical_size,
        doc.allocated_size,
        doc.files,
        doc.dirs,
        doc.modified
    ));
    for child in &doc.children {
        lines_of(child, out);
    }
}

#[test]
fn tables_and_documents_agree_node_by_node() {
    let mut tree = Tree::with_root(NodeParams::named("r", NodeKind::Directory));
    let root = tree.root().unwrap();
    let d = tree.add_child(root, NodeParams::named("d", NodeKind::Directory));
    tree.add_child(d, NodeParams::named("x", NodeKind::File).sizes(9, 1));
    tree.add_child(d, NodeParams::named("y", NodeKind::File).sizes(1, 9));
    tree.add_child(root, NodeParams::named("z", NodeKind::File).sizes(50, 3));
    let mut listed = Vec::new();
    for size_mode in [SizeMode::Allocated, SizeMode::Logical] {
        let options = ExportOptions { size_mode };
        let mut out = Vec::new();
        export_csv_with(&tree, root, options, &mut out).unwrap();
        let text = String::from_utf8(out).unwrap();
        let rows: Vec<&str> = text.lines().skip(1).collect();
        let mut lines = Vec::new();
        lines_of(&export_json_with(&tree, root, options).unwrap(), &mut lines);
        assert_eq!(rows, lines);
        listed.push(lines);
    }
    // By either size the same nodes are there, in another order.
    assert_ne!(listed[0], listed[1]);
    listed[0].sort();
    listed[1].sort();
    assert_eq!(listed[0], listed[1]);
}
