//! What filters make of the nodes of a tree.
use rss::filter::{evaluate, Filter, FilterVerdict};
use rss::filter_ast::FileClass;
use rss::node::{NodeFlags, NodeKind, NodeParams, Tag};
use rss::time::filetime_from_unix;
use rss::tree::Tree;
use rss::{FileTime, NodeId};
use std::collections::HashMap;


const DAY_TICKS: i64 = 86_400 * 10_000_000;

fn now() -> FileTime {
    filetime_from_unix(1_800_000_000)
}

fn days_ago(d: i64) -> FileTime {
    now() - d * DAY_TICKS
}

/// Test tree:
/// ```text
/// C:\                          (dir)
/// ├── photos\                  (dir)
/// │   ├── a.jpg                2 MiB, modified 60 d ago
/// │   └── b.txt                10 B,  modified 10 d ago
/// ├── temp\                    (dir, tagged red)
/// │   └── c.gif                200 KiB, modified 5 d ago
/// ├── internet cache\          (dir)
/// │   └── page.html            1000 B
/// ├── big.bin                  5 MiB, modified 400 d ago, tagged yellow
/// ├── hid.dat                  100 B, hidden attribute
/// └── song.mp3                 3 MiB
/// ```
struct Fixture {
    tree: Tree,
    ids: HashMap<&'static str, NodeId>,
    classes: Vec<FileClass>,
}

fn fixture() -> Fixture {
    let mut tree = Tree::with_root(NodeParams::named("C:", NodeKind::Directory));
    let root = tree.root().unwrap();
    let mut ids = HashMap::new();
    ids.insert("root", root);

    let photos = tree.add_child(root, NodeParams::named("photos", NodeKind::Directory));
    ids.insert("photos", photos);
    ids.insert(
        "a.jpg",
        tree.add_child(
            photos,
            NodeParams::named("a.jpg", NodeKind::File)
                .sizes(2 << 20, 2 << 20)
                .modified(days_ago(60)),
        ),
    );
    ids.insert(
        "b.txt",
        tree.add_child(
            photos,
            NodeParams::named("b.txt", NodeKind::File)
                .sizes(10, 10)
                .modified(days_ago(10)),
        ),
    );

    let temp = tree.add_child(
        root,
        NodeParams {
            name: "temp".into(),
            kind: NodeKind::Directory,
            tag: Some(Tag::Red),
            ..Default::default()
        },
    );
    ids.insert("temp", temp);
    ids.insert(
        "c.gif",
        tree.add_child(
            temp,
            NodeParams::named("c.gif", NodeKind::File)
                .sizes(200 * 1024, 200 * 1024)
                .modified(days_ago(5)),
        ),
    );

    let inet = tree.add_child(
        root,
        NodeParams::named("internet cache", NodeKind::Directory),
    );
    ids.insert("internet cache", inet);
    ids.insert(
        "page.html",
        tree.add_child(
            inet,
            NodeParams::named("page.html", NodeKind::File)
                .sizes(1000, 1000)
                .modified(days_ago(1)),
        ),
    );

    ids.insert(
        "big.bin",
        tree.add_child(
            root,
            NodeParams {
                tag: Some(Tag::Yellow),
                accessed: days_ago(500),
                ..NodeParams::named("big.bin", NodeKind::File)
                    .sizes(5 << 20, 5 << 20)
                    .modified(days_ago(400))
            },
        ),
    );
    ids.insert(
        "hid.dat",
        tree.add_child(
            root,
            NodeParams::named("hid.dat", NodeKind::File)
                .sizes(100, 100)
                .flags(NodeFlags(NodeFlags::HIDDEN))
                .modified(days_ago(1)),
        ),
    );
    ids.insert(
        "song.mp3",
        tree.add_child(
            root,
            NodeParams::named("song.mp3", NodeKind::File)
                .sizes(3 << 20, 3 << 20)
                .modified(days_ago(2)),
        ),
    );

    let classes = vec![
        FileClass::new("Audio/Music", &["mp3", "wav"]),
        FileClass::new("Images", &["jpg", "gif"]),
    ];
    Fixture { tree, ids, classes }
}

impl Fixture {
    fn id(&self, name: &str) -> NodeId {
        self.ids[name]
    }

    /// Parse `filter` (asserting it is well-formed) and evaluate `name`.
    fn verdict(&self, filter: &str, name: &str) -> FilterVerdict {
        let f = Filter::parse(filter, &self.classes);
        assert!(
            f.warnings().is_empty(),
            "unexpected warnings for {filter:?}: {:?}",
            f.warnings()
        );
        evaluate(&self.tree, self.id(name), &f, now())
    }

    fn matches(&self, filter: &str, name: &str) -> bool {
        let f = Filter::parse(filter, &self.classes);
        assert!(
            f.warnings().is_empty(),
            "unexpected warnings for {filter:?}: {:?}",
            f.warnings()
        );
        f.matches(&self.tree, self.id(name), now())
    }
}

#[test]
fn empty_filter_shows_everything() {
    let fx = fixture();
    for name in [
        "root", "photos", "a.jpg", "b.txt", "temp", "c.gif", "big.bin",
    ] {
        assert_eq!(fx.verdict("", name), FilterVerdict::Visible, "{name}");
    }
}

#[test]
fn file_mask_verdicts() {
    let fx = fixture();
    assert_eq!(fx.verdict("*.jpg", "a.jpg"), FilterVerdict::Visible);
    assert_eq!(fx.verdict("*.jpg", "b.txt"), FilterVerdict::Hidden);
    // Containers of matches stay as dimmed context; others are hidden.
    assert_eq!(fx.verdict("*.jpg", "photos"), FilterVerdict::Dimmed);
    assert_eq!(fx.verdict("*.jpg", "root"), FilterVerdict::Dimmed);
    assert_eq!(fx.verdict("*.jpg", "temp"), FilterVerdict::Hidden);
}

#[test]
fn folder_mask_ancestor_matching() {
    let fx = fixture();
    assert_eq!(fx.verdict("\\temp", "c.gif"), FilterVerdict::Visible);
    assert_eq!(fx.verdict("\\temp", "temp"), FilterVerdict::Visible);
    assert_eq!(fx.verdict("\\temp", "photos"), FilterVerdict::Hidden);
    assert_eq!(fx.verdict("\\temp", "root"), FilterVerdict::Dimmed);
    // Wildcard folder mask.
    assert_eq!(
        fx.verdict("\\*internet*", "page.html"),
        FilterVerdict::Visible
    );
    assert_eq!(fx.verdict("\\*internet*", "a.jpg"), FilterVerdict::Hidden);
    // Negated folder mask.
    assert_eq!(fx.verdict("|\\temp", "c.gif"), FilterVerdict::Hidden);
    assert_eq!(fx.verdict("|\\temp", "a.jpg"), FilterVerdict::Visible);
}

#[test]
fn tags_and_inheritance() {
    let fx = fixture();
    // children inherit ancestor tags for filtering.
    assert_eq!(fx.verdict(":red", "temp"), FilterVerdict::Visible);
    assert_eq!(fx.verdict(":red", "c.gif"), FilterVerdict::Visible);
    assert_eq!(fx.verdict(":red", "a.jpg"), FilterVerdict::Hidden);
    assert_eq!(fx.verdict(":all", "big.bin"), FilterVerdict::Visible);
    // 2.x expression: red or green, but not blue.
    assert_eq!(
        fx.verdict(":tag:red+green-b", "c.gif"),
        FilterVerdict::Visible
    );
    assert_eq!(
        fx.verdict(":tag:red+green-b", "big.bin"),
        FilterVerdict::Hidden
    );
    // Negated legacy tag.
    assert_eq!(fx.verdict("|:yellow", "a.jpg"), FilterVerdict::Visible);
    assert_eq!(fx.verdict("|:yellow", "big.bin"), FilterVerdict::Hidden);
}

#[test]
fn eval_size_conditions() {
    let fx = fixture();
    assert_eq!(fx.verdict(">1mb", "a.jpg"), FilterVerdict::Visible); // 2 MiB
    assert_eq!(fx.verdict(">1mb", "c.gif"), FilterVerdict::Hidden); // 200 KiB
    assert_eq!(fx.verdict("<1kb", "b.txt"), FilterVerdict::Visible);
    assert_eq!(
        fx.verdict("filesize>4mb", "big.bin"),
        FilterVerdict::Visible
    );
    // Directories use their own (near-zero) sizes, so they fail and show
    // as dimmed context.
    assert_eq!(fx.verdict(">1mb", "root"), FilterVerdict::Dimmed);
}

#[test]
fn eval_age_conditions() {
    let fx = fixture();
    assert_eq!(fx.verdict(">1year", "big.bin"), FilterVerdict::Visible); // 400 d
    assert_eq!(fx.verdict(">1year", "a.jpg"), FilterVerdict::Hidden); // 60 d
    assert_eq!(fx.verdict("<3months", "a.jpg"), FilterVerdict::Visible);
    assert_eq!(fx.verdict("<1months", "a.jpg"), FilterVerdict::Hidden);
    assert_eq!(fx.verdict("a>1year", "big.bin"), FilterVerdict::Visible); // access 500 d
    assert_eq!(fx.verdict("m<1weeks", "c.gif"), FilterVerdict::Visible); // 5 d
}

#[test]
fn attr_conditions() {
    let fx = fixture();
    assert_eq!(fx.verdict(":attr:+h", "hid.dat"), FilterVerdict::Visible);
    assert_eq!(fx.verdict(":attr:+h", "a.jpg"), FilterVerdict::Hidden);
    // Shape: must-be-set AND must-be-clear.
    assert_eq!(fx.verdict(":attr:-ro,h", "hid.dat"), FilterVerdict::Visible);
    assert_eq!(fx.verdict(":attr:+a,h", "hid.dat"), FilterVerdict::Hidden);
    // Negated attr acts as an exclusion.
    assert_eq!(fx.verdict("|:attr:h", "a.jpg"), FilterVerdict::Visible);
    assert_eq!(fx.verdict("|:attr:h", "hid.dat"), FilterVerdict::Hidden);
}

#[test]
fn eval_class_conditions() {
    let fx = fixture();
    assert_eq!(
        fx.verdict(":class:Audio/Music", "song.mp3"),
        FilterVerdict::Visible
    );
    assert_eq!(
        fx.verdict(":class:Audio/Music", "a.jpg"),
        FilterVerdict::Hidden
    );
    assert_eq!(
        fx.verdict("|:class:Audio/Music", "a.jpg"),
        FilterVerdict::Visible
    );
    assert_eq!(
        fx.verdict("|:class:Audio/Music", "song.mp3"),
        FilterVerdict::Hidden
    );
}

/// Canonical example end to end: `*.jpg;>1mb;<3months;|:yellow`.
#[test]
fn canonical_manual_example_end_to_end() {
    let fx = fixture();
    // a.jpg: 2 MiB, 60 days old, untagged -> visible.
    assert_eq!(
        fx.verdict("*.jpg;>1mb;<3months;|:yellow", "a.jpg"),
        FilterVerdict::Visible
    );
    // big.bin: not a jpg, too old, and tagged yellow -> hidden.
    assert_eq!(
        fx.verdict("*.jpg;>1mb;<3months;|:yellow", "big.bin"),
        FilterVerdict::Hidden
    );
    // c.gif: not a jpg -> hidden; its parent temp has no matches.
    assert_eq!(
        fx.verdict("*.jpg;>1mb;<3months;|:yellow", "temp"),
        FilterVerdict::Hidden
    );
    assert_eq!(
        fx.verdict("*.jpg;>1mb;<3months;|:yellow", "photos"),
        FilterVerdict::Dimmed
    );
}

/// Truth table for the combination rules: inclusion masks, tags
/// and classes are OR-ed; exclusion masks are AND-ed; every other
/// condition type is AND-ed.
///
/// Each row is `(filter, node, expected passes)`.
#[test]
fn fr_4_10_combinations() {
    let fx = fixture();
    let cases: &[(&str, &str, bool)] = &[
        // Two inclusion masks are OR-ed.
        ("*.jpg;*.gif", "a.jpg", true),
        ("*.jpg;*.gif", "c.gif", true),
        ("*.jpg;*.gif", "b.txt", false),
        // Inclusion mask OR tag.
        ("*.jpg;:red", "a.jpg", true),
        ("*.jpg;:red", "c.gif", true), // red inherited from `temp`
        ("*.jpg;:red", "b.txt", false),
        // Inclusion mask OR class.
        ("*.jpg;:class:Audio/Music", "a.jpg", true),
        ("*.jpg;:class:Audio/Music", "song.mp3", true),
        ("*.jpg;:class:Audio/Music", "b.txt", false),
        // Tag OR class, no mask involved.
        (":red;:class:Audio/Music", "c.gif", true),
        (":red;:class:Audio/Music", "song.mp3", true),
        (":red;:class:Audio/Music", "a.jpg", false),
        // Exclusion masks are AND-ed: each one excludes on its own.
        ("|*.jpg;|*.gif", "a.jpg", false),
        ("|*.jpg;|*.gif", "c.gif", false),
        ("|*.jpg;|*.gif", "b.txt", true),
        // Inclusion AND exclusion.
        ("*.jpg;|a*", "a.jpg", false),
        ("*.gif;|a*", "c.gif", true),
        // Size/age conditions AND with the inclusion group and with
        // each other.
        ("*.jpg;>1mb", "a.jpg", true),
        ("*.jpg;>3mb", "a.jpg", false),
        ("*.jpg;<3months", "a.jpg", true),
        ("*.jpg;>1mb;<3months", "a.jpg", true),
        ("*.jpg;>1mb;<1months", "a.jpg", false), // 60 d > 30 d
        (">1mb;<3months", "a.jpg", true),        // no inclusion group
        (">1mb;<3months", "big.bin", false),     // 400 d old
        // Attribute conditions AND with everything else.
        (":attr:+h;>50b", "hid.dat", true),
        (":attr:+h;>500b", "hid.dat", false),
        // Canonical example: mask AND size AND age AND NOT tag.
        ("*.jpg;>1mb;<3months;|:yellow", "a.jpg", true),
        ("*.jpg;>1mb;<3months;|:yellow", "big.bin", false),
        // Negated tag exclusion on its own.
        ("|:yellow", "a.jpg", true),
        ("|:yellow", "big.bin", false),
    ];
    for (filter, node, expected) in cases {
        assert_eq!(
            fx.matches(filter, node),
            *expected,
            "filter `{filter}` on node `{node}`"
        );
    }
}
