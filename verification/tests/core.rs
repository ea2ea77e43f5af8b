//! The tree: aggregates, removal, paths and slots.
use rss::node::{NodeKind, NodeParams, Tag};
use rss::time::{filetime_from_unix, filetime_to_unix};
use rss::tree::Tree;
use rss::NodeId;

fn dir(name: &str) -> NodeParams {
    NodeParams::named(name, NodeKind::Directory)
}

fn file(name: &str, logical: u64, allocated: u64) -> NodeParams {
    NodeParams::named(name, NodeKind::File).sizes(logical, allocated)
}

#[test]
fn aggregates_propagate_to_ancestors() {
    let mut tree = Tree::with_root(dir("root"));
    let root = tree.root().unwrap();
    let sub = tree.add_child(root, dir("sub"));
    let f1 = tree.add_child(sub, file("a.bin", 100, 4096));
    let _f2 = tree.add_child(root, file("b.bin", 50, 4096));

    let root_node = tree.node(root);
    assert_eq!(root_node.agg_logical, 150);
    assert_eq!(root_node.agg_allocated, 8192);
    assert_eq!(root_node.agg_files, 2);
    assert_eq!(root_node.agg_dirs, 2); // root + sub

    tree.set_own_sizes(f1, 200, 8192, 0);
    assert_eq!(tree.node(root).agg_logical, 250);
    assert_eq!(tree.node(root).agg_allocated, 12288);
}

#[test]
fn remove_subtree_propagates_negative_deltas() {
    let mut tree = Tree::with_root(dir("root"));
    let root = tree.root().unwrap();
    let sub = tree.add_child(root, dir("sub"));
    tree.add_child(sub, file("a.bin", 100, 4096));
    tree.add_child(root, file("b.bin", 50, 4096));

    tree.remove_subtree(sub);
    let root_node = tree.node(root);
    assert_eq!(root_node.agg_logical, 50);
    assert_eq!(root_node.agg_allocated, 4096);
    assert_eq!(root_node.agg_files, 1);
    assert_eq!(root_node.agg_dirs, 1);
    assert_eq!(tree.children(root).count(), 1);
}

#[test]
fn children_and_paths() {
    let mut tree = Tree::with_root(dir("root"));
    let root = tree.root().unwrap();
    let sub = tree.add_child(root, dir("sub"));
    let f = tree.add_child(sub, file("a.txt", 1, 4096));

    let kids: Vec<NodeId> = tree.children(root).collect();
    assert_eq!(kids, vec![sub]);
    assert_eq!(tree.path_components(f), vec!["root", "sub", "a.txt"]);
    assert_eq!(tree.path(f), "root/sub/a.txt");
    assert_eq!(tree.trail(f), vec![root, sub, f]);
}

#[test]
fn ads_counts_toward_allocated_aggregate() {
    let mut tree = Tree::with_root(dir("root"));
    let root = tree.root().unwrap();
    let mut params = file("hosted.txt", 10, 4096);
    params.ads_size = 2048;
    tree.add_child(root, params);
    assert_eq!(tree.node(root).agg_allocated, 4096 + 2048);
}

#[test]
fn free_slots_are_recycled() {
    let mut tree = Tree::with_root(dir("root"));
    let root = tree.root().unwrap();
    let sub = tree.add_child(root, dir("sub"));
    tree.add_child(sub, file("a.bin", 1, 1));
    let len_before = tree.len();
    tree.remove_subtree(sub);
    assert_eq!(tree.len(), len_before - 2);
    tree.add_child(root, dir("reused"));
    assert_eq!(tree.len(), len_before - 1);
}

#[test]
fn filetime_unix_roundtrip() {
    let ft = filetime_from_unix(1_700_000_000);
    assert_eq!(filetime_to_unix(ft), 1_700_000_000);
}

#[test]
fn children_come_newest_first() {
    let mut tree = Tree::with_root(dir("root"));
    let root = tree.root().unwrap();
    let a = tree.add_child(root, file("a", 1, 1));
    let b = tree.add_child(root, file("b", 1, 1));
    let c = tree.add_child(root, file("c", 1, 1));
    assert_eq!(tree.children(root).collect(), vec![c, b, a]);
    tree.remove_subtree(b);
    assert_eq!(tree.children(root).collect(), vec![c, a]);
}

#[test]
fn removing_the_root_leaves_nothing() {
    let mut tree = Tree::with_root(dir("root"));
    let root = tree.root().unwrap();
    tree.add_child(root, file("a", 1, 1));
    tree.remove_subtree(root);
    assert!(tree.is_empty());
    assert_eq!(tree.root(), None);
}

#[test]
fn a_node_can_be_written_to_but_for_its_links() {
    let mut tree = Tree::with_root(dir("root"));
    let root = tree.root().unwrap();
    let a = tree.add_child(root, file("a", 1, 1));
    tree.node_mut(a).tag = Some(Tag::Green);
    assert_eq!(tree.node(a).tag, Some(Tag::Green));
    assert_eq!(tree.node(a).parent, Some(root));
    let copy = tree.clone();
    assert_eq!(copy.node(a).tag, Some(Tag::Green));
    assert_eq!(copy.len(), 2);
}

/// All that a tree shows of a node and of what is below it.
fn shown(tree: &Tree, id: NodeId, out: &mut Vec<String>) {
    let n = tree.node(id);
    out.push(format!(
        "{id} {} {:?} {:?} {} {} {} {} {} {}",
        tree.path(id),
        n.kind,
        n.parent,
        n.logical_size,
        n.allocated_size,
        n.agg_logical,
        n.agg_allocated,
        n.agg_files,
        n.agg_dirs
    ));
    for child in tree.children(id).collect() {
        shown(tree, child, out);
    }
}

#[test]
fn removing_a_subtree_undoes_all_additions_below_it() {
    let mut tree = Tree::with_root(dir("root"));
    let root = tree.root().unwrap();
    let old = tree.add_child(root, dir("old"));
    tree.add_child(old, file("x", 7, 8));
    let gone = tree.add_child(root, file("gone", 3, 3));
    tree.remove_subtree(gone);
    let mut before = Vec::new();
    shown(&tree, root, &mut before);
    let len = tree.len();

    let top = tree.add_child(old, dir("top"));
    let mid = tree.add_child(top, dir("mid"));
    tree.add_child(mid, file("deep", 100, 200));
    tree.add_child(top, file("side", 1, 2));
    assert_eq!(tree.len(), len + 4);
    assert_eq!(tree.node(root).agg_logical, 108);

    tree.remove_subtree(top);
    let mut after = Vec::new();
    shown(&tree, root, &mut after);
    assert_eq!(after, before);
    assert_eq!((tree.len(), tree.root()), (len, Some(root)));
}

#[test]
fn other_sizes_change_the_sums_above_and_no_others() {
    let mut tree = Tree::with_root(dir("root"));
    let root = tree.root().unwrap();
    let sub = tree.add_child(root, dir("sub"));
    let a = tree.add_child(sub, file("a", 100, 200));
    let b = tree.add_child(root, file("b", 7, 8));
    tree.set_own_sizes(a, 40, 50, 6);
    let sums = |id: NodeId| {
        let n = tree.node(id);
        (n.agg_logical, n.agg_allocated, n.agg_files, n.agg_dirs)
    };
    assert_eq!(sums(a), (40, 56, 1, 0));
    assert_eq!(sums(sub), (40, 56, 1, 1));
    assert_eq!(sums(root), (47, 64, 2, 2));
    assert_eq!(sums(b), (7, 8, 1, 0));
}
