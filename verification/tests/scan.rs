//! Scans: from the entries of a walk to a tree and a summary.
use rss::builder::TreeBuilder;
use rss::node::{NodeFlags, NodeKind, NodeParams};
use rss::scan::{ScanError, ScanEvent, ScanOptions, Upsert};
use rss::scan_tree::scan_tree;
use rss::time::filetime_from_unix;
use rss::walk::{
    descent, meta_values, path_meta_values, stat_entry, Descent, EntryType, MetaValues, PathStat, Reading, RootProbe, Stamp,
    wants_compressed_size, windows_meta_values, UnixStat, WalkEntry, WalkItem, WalkScanner,
    WalkStep, WindowsStat,
};

fn upsert(parent: Option<&str>, path: &str, params: NodeParams) -> ScanEvent {
    ScanEvent::Upsert(Upsert {
        parent_path: parent.map(String::from),
        path: path.to_string(),
        params,
    })
}

#[test]
fn folds_upserts_into_tree_with_aggregates() {
    let mut b = TreeBuilder::new();
    b.apply(upsert(
        None,
        "/r",
        NodeParams::named("/r", NodeKind::Directory),
    ));
    b.apply(upsert(
        Some("/r"),
        "/r/f.bin",
        NodeParams::named("f.bin", NodeKind::File).sizes(100, 4096),
    ));
    assert_eq!(b.orphans, 0);
    let tree = b.into_tree();
    let root = tree.root().unwrap();
    assert_eq!(tree.node(root).agg_logical, 100);
    assert_eq!(tree.node(root).agg_files, 1);
    assert_eq!(tree.node(root).agg_dirs, 1);
}

#[test]
fn counts_orphans_instead_of_panicking() {
    let mut b = TreeBuilder::new();
    b.apply(upsert(
        None,
        "/r",
        NodeParams::named("/r", NodeKind::Directory),
    ));
    b.apply(upsert(
        Some("/r/never-seen"),
        "/r/never-seen/f.bin",
        NodeParams::named("f.bin", NodeKind::File),
    ));
    assert_eq!(b.orphans, 1);
    assert_eq!(b.tree().len(), 1);
}

#[test]
fn a_second_root_is_an_orphan() {
    let mut b = TreeBuilder::new();
    b.apply(upsert(
        None,
        "/r",
        NodeParams::named("/r", NodeKind::Directory),
    ));
    b.apply(upsert(
        None,
        "/s",
        NodeParams::named("/s", NodeKind::Directory),
    ));
    assert_eq!(b.orphans, 1);
    assert_eq!(b.tree().len(), 1);
}

#[test]
fn directories_are_found_however_their_paths_are_written() {
    let mut b = TreeBuilder::new();
    b.apply(upsert(
        None,
        "/r/",
        NodeParams::named("/r/", NodeKind::Directory),
    ));
    b.apply(upsert(
        Some("/r//."),
        "/r/f.bin",
        NodeParams::named("f.bin", NodeKind::File),
    ));
    assert_eq!(b.orphans, 0);
    assert_eq!(b.tree().len(), 2);
}

fn meta(logical: u64, key: Option<(u64, u64)>) -> MetaValues {
    MetaValues {
        logical,
        allocated: logical.div_ceil(4096) * 4096,
        hardlink_key: key,
        created: filetime_from_unix(1_700_000_000),
        accessed: filetime_from_unix(1_700_000_001),
        modified: filetime_from_unix(1_700_000_002),
    }
}

fn entry(parent: &str, name: &str, file_type: EntryType, reading: Reading) -> WalkItem {
    WalkItem::Entry(WalkEntry {
        path: format!("{parent}/{name}"),
        parent_path: parent.to_string(),
        depth: 1,
        file_name: name.to_string(),
        file_type,
        reading,
        denied: None,
    })
}

fn root_entry(path: &str) -> WalkItem {
    WalkItem::Entry(WalkEntry {
        path: path.to_string(),
        parent_path: String::new(),
        depth: 0,
        file_name: String::new(),
        file_type: EntryType::Directory,
        reading: Reading::Meta(meta(4096, None)),
        denied: None,
    })
}

fn file(parent: &str, name: &str, logical: u64) -> WalkItem {
    entry(parent, name, EntryType::File, Reading::Meta(meta(logical, None)))
}

fn dir(parent: &str, name: &str) -> WalkItem {
    entry(
        parent,
        name,
        EntryType::Directory,
        Reading::Meta(meta(4096, None)),
    )
}

/// The events of a walk that is not cancelled.
fn events(root: &str, items: Vec<WalkItem>) -> Vec<Upsert> {
    let mut scanner = WalkScanner::new();
    let mut walked = scanner.start(root, RootProbe::Found).unwrap();
    let mut out = Vec::new();
    for item in items {
        if let WalkStep::Emit(u, _, _) =
            walked.step(&mut scanner, item, &ScanOptions::default(), false)
        {
            out.push(u);
        }
    }
    out
}

#[test]
fn scans_nested_tree_with_sizes() {
    let items = || {
        vec![
            root_entry("/t"),
            dir("/t", "sub"),
            file("/t", "top.bin", 100),
            file("/t/sub", "nested.bin", 200),
        ]
    };
    let (tree, summary) =
        scan_tree("/t", RootProbe::Found, items(), &ScanOptions::default(), 7).unwrap();
    assert_eq!(summary.entries, 4); // root, sub, top.bin, nested.bin
    assert_eq!(summary.files, 2);
    assert_eq!(summary.dirs, 2);
    assert_eq!(summary.logical_size, 300);
    assert!(summary.allocated_size >= summary.logical_size);
    assert!(!summary.cancelled);
    assert_eq!(summary.errors.len(), 0);
    assert_eq!(summary.elapsed_ms, 7);
    // What the summary says is what the tree holds.
    let root = tree.node(tree.root().unwrap());
    assert_eq!(root.agg_logical, summary.logical_size);
    assert_eq!(root.agg_allocated, summary.allocated_size);
    assert_eq!(root.agg_files, summary.files);
    assert_eq!(root.agg_dirs, summary.dirs);
    // Parents come before their children.
    let paths: Vec<String> = events("/t", items()).into_iter().map(|u| u.path).collect();
    let pos = |p: &str| paths.iter().position(|x| x.ends_with(p)).unwrap();
    assert!(pos("sub") < pos("sub/nested.bin"));
}

#[test]
fn cancellation_returns_partial_summary() {
    let mut items = vec![root_entry("/t")];
    for i in 0..64 {
        items.push(file("/t", &format!("f{i}.bin"), 16));
    }
    let opts = ScanOptions {
        cancel: true, // cancelled from the start
        ..Default::default()
    };
    let (tree, summary) = scan_tree("/t", RootProbe::Found, items, &opts, 0)
        .ok()
        .expect("cancellation is not an error");
    assert!(summary.cancelled);
    assert_eq!(summary.entries, 0);
    assert!(tree.is_empty());
}

#[test]
fn cancel_mid_scan_does_not_hang() {
    let mut scanner = WalkScanner::new();
    let mut walked = scanner.start("/t", RootProbe::Found).unwrap();
    let mut emitted = 0;
    for i in 0..4000u32 {
        let opts = ScanOptions {
            cancel: i >= 100,
            ..Default::default()
        };
        let item = file("/t", &format!("f{i}.bin"), 64);
        if let WalkStep::Emit(..) = walked.step(&mut scanner, item, &opts, true) {
            emitted += 1;
        }
    }
    let summary = walked.finish(3);
    assert!(summary.cancelled);
    assert_eq!(emitted, 100);
    assert_eq!(summary.files, 100);
}

#[test]
fn hardlink_aliases_count_zero() {
    let linked = || Reading::Meta(meta(500, Some((1, 42))));
    let items = || {
        vec![
            root_entry("/t"),
            entry("/t", "orig.bin", EntryType::File, linked()),
            entry("/t", "alias.bin", EntryType::File, linked()),
        ]
    };
    let (_, summary) =
        scan_tree("/t", RootProbe::Found, items(), &ScanOptions::default(), 0).unwrap();
    assert_eq!(summary.logical_size, 500, "size counted exactly once");
    let aliases = events("/t", items())
        .iter()
        .filter(|u| {
            u.params
                .flags
                .contains(NodeFlags(NodeFlags::HARDLINK_ALIAS))
        })
        .count();
    assert_eq!(aliases, 1);
}

#[test]
fn symlinks_are_counted_not_followed() {
    let items = vec![
        root_entry("/t"),
        dir("/t", "real"),
        file("/t/real", "big.bin", 10_000),
        entry(
            "/t",
            "link",
            EntryType::Symlink,
            Reading::Meta(meta("real".len() as u64, None)),
        ),
    ];
    let (tree, summary) =
        scan_tree("/t", RootProbe::Found, items, &ScanOptions::default(), 0).unwrap();
    // link (a file node) + big.bin.
    assert_eq!(summary.files, 2);
    assert_eq!(summary.logical_size, 10_000 + "real".len() as u64);
    let link = tree
        .children(tree.root().unwrap())
        .collect()
        .into_iter()
        .find(|&c| tree.node(c).name == "link")
        .unwrap();
    assert!(tree
        .node(link)
        .flags
        .contains(NodeFlags(NodeFlags::REPARSE_POINT)));
}

#[test]
fn permission_denied_dir_becomes_unaccessible() {
    let locked = WalkItem::Entry(WalkEntry {
        path: "/t/locked".to_string(),
        parent_path: "/t".to_string(),
        depth: 1,
        file_name: "locked".to_string(),
        file_type: EntryType::Directory,
        reading: Reading::Meta(meta(4096, None)),
        denied: Some("permission denied".to_string()),
    });
    let (tree, summary) = scan_tree(
        "/t",
        RootProbe::Found,
        vec![root_entry("/t"), locked],
        &ScanOptions::default(),
        0,
    )
    .unwrap();
    assert_eq!(summary.unaccessible, 1);
    assert_eq!(summary.errors.len(), 1);
    assert_eq!(summary.errors[0].path.as_deref(), Some("/t/locked"));
    assert_eq!(summary.errors[0].message, "permission denied");
    let id = tree.children(tree.root().unwrap()).next().unwrap();
    let node = tree.node(id);
    assert_eq!(node.kind, NodeKind::Unaccessible);
    assert!(node.flags.contains(NodeFlags(NodeFlags::ACCESS_DENIED)));
    assert_eq!(node.logical_size, 0);
}

#[test]
fn pause_blocks_and_resume_completes() {
    let paused = ScanOptions {
        pause: true,
        ..Default::default()
    };
    assert!(paused.must_wait(), "paused scan must block");
    assert!(!ScanOptions::default().must_wait());
    // A paused scan stays cancellable.
    let stopped = ScanOptions {
        pause: true,
        cancel: true,
        ..Default::default()
    };
    assert!(!stopped.must_wait());
    assert!(stopped.is_cancelled());
}

#[test]
fn stat_entry_matches_walk_mapping() {
    let file = stat_entry("/t/f.bin", Some((EntryType::File, meta(100, None)))).unwrap();
    assert_eq!(file.name, "f.bin");
    assert_eq!(file.kind, NodeKind::File);
    assert_eq!(file.logical_size, 100);
    assert!(file.allocated_size >= file.logical_size);
    assert!(file.modified > 0);

    let dirp = stat_entry("/t/d", Some((EntryType::Directory, meta(4096, None)))).unwrap();
    assert_eq!(dirp.kind, NodeKind::Directory);
    assert_eq!(dirp.logical_size, 0);

    // Vanished paths yield nothing.
    assert!(stat_entry("/t/gone.bin", None).is_none());
}

#[test]
fn missing_root_is_a_wholesale_error() {
    let path = "/definitely/not/a/real/path/rss";
    let err = WalkScanner::new()
        .start(path, RootProbe::NotFound)
        .err()
        .unwrap();
    assert!(matches!(err, ScanError::RootNotFound(_)));
    assert_eq!(
        err.describe(),
        "scan root not found: /definitely/not/a/real/path/rss"
    );
}

#[test]
fn unreadable_roots_fail_the_scan() {
    let early = scan_tree(
        "/t",
        RootProbe::Unreadable("denied".to_string()),
        Vec::new(),
        &ScanOptions::default(),
        0,
    );
    assert_eq!(
        early.err().unwrap().describe(),
        "scan root is unreadable: /t: denied"
    );
    // The root that cannot be opened fails the scan as its entry comes.
    let root = WalkItem::Entry(WalkEntry {
        path: "/t".to_string(),
        parent_path: String::new(),
        depth: 0,
        file_name: String::new(),
        file_type: EntryType::Directory,
        reading: Reading::Meta(meta(0, None)),
        denied: Some("closed".to_string()),
    });
    let late = scan_tree(
        "/t",
        RootProbe::Found,
        vec![root, file("/t", "f", 1)],
        &ScanOptions::default(),
        0,
    );
    assert_eq!(
        late.err().unwrap(),
        ScanError::RootUnreadable {
            path: "/t".to_string(),
            message: "closed".to_string()
        }
    );
}

#[test]
fn problems_without_a_path_are_noted() {
    let (_, summary) = scan_tree(
        "/t",
        RootProbe::Found,
        vec![root_entry("/t"), WalkItem::Error("raced".to_string())],
        &ScanOptions::default(),
        0,
    )
    .unwrap();
    assert_eq!(summary.errors.len(), 1);
    assert_eq!(summary.errors[0].path, None);
    assert_eq!(summary.entries, 1);
}

#[test]
fn progress_comes_at_intervals() {
    let mut scanner = WalkScanner::new();
    let mut walked = scanner.start("/t", RootProbe::Found).unwrap();
    let mut reports = Vec::new();
    for i in 0..9000u32 {
        let item = file("/t", &format!("f{i}"), 2);
        if let WalkStep::Emit(_, _, Some(p)) =
            walked.step(&mut scanner, item, &ScanOptions::default(), true)
        {
            reports.push((p.entries, p.logical_bytes));
        }
    }
    assert_eq!(reports, [(4096, 8192), (8192, 16384)]);
}

#[test]
fn unix_values_become_node_values() {
    let st = UnixStat {
        len: 1000,
        blocks: 3,
        nlink: 2,
        dev: 7,
        ino: 11,
        created: Stamp::Before(5),
        atime: 1,
        mtime: -1,
    };
    let m = meta_values(&st, true);
    assert_eq!(m.logical, 1000);
    assert_eq!(m.allocated, 1536);
    assert_eq!(m.hardlink_key, Some((7, 11)));
    assert_eq!(m.created, filetime_from_unix(0));
    assert_eq!(m.accessed, filetime_from_unix(1));
    assert_eq!(m.modified, filetime_from_unix(-1));
    // Only files are known by their links.
    assert_eq!(meta_values(&st, false).hardlink_key, None);
    let huge = UnixStat { blocks: u64::MAX, ..st };
    assert_eq!(meta_values(&huge, true).allocated, u64::MAX);
}

#[test]
fn windows_values_become_node_values() {
    let st = WindowsStat {
        len: 10,
        allocated: 0,
        hard_link: Some((1, 2)),
        modified: Stamp::After(3),
    };
    assert!(wants_compressed_size(&st, true));
    assert!(!wants_compressed_size(&st, false));
    let m = windows_meta_values(&st, true, Some(4));
    assert_eq!((m.logical, m.allocated), (10, 4));
    assert_eq!(m.hardlink_key, Some((1, 2)));
    assert_eq!(m.created, filetime_from_unix(3));
    assert_eq!(windows_meta_values(&st, true, None).allocated, 10);
    assert_eq!(windows_meta_values(&st, false, None).allocated, 0);
}

#[test]
fn single_paths_start_in_1970_at_the_earliest() {
    let m = path_meta_values(&PathStat {
        len: 700,
        blocks: 2,
        created: Stamp::Unknown,
        accessed: Stamp::Before(9),
        modified: Stamp::After(5),
    });
    assert_eq!((m.logical, m.allocated), (700, 1024));
    assert_eq!(m.hardlink_key, None);
    assert_eq!(m.created, filetime_from_unix(0));
    assert_eq!(m.accessed, filetime_from_unix(0));
    assert_eq!(m.modified, filetime_from_unix(5));
}

#[test]
fn walks_enter_what_opens() {
    assert_eq!(descent(false, EntryType::Directory, true), Descent::Enter);
    assert_eq!(descent(false, EntryType::Directory, false), Descent::Refuse);
    assert_eq!(descent(false, EntryType::File, false), Descent::Enter);
    assert_eq!(descent(true, EntryType::Directory, false), Descent::Leave);
}

#[test]
fn threads_default_to_what_the_machine_runs() {
    let opts = ScanOptions::default();
    assert_eq!(opts.worker_threads(Some(16)), 16);
    assert_eq!(opts.worker_threads(None), 4);
    let two = ScanOptions { threads: 2, ..opts };
    assert_eq!(two.worker_threads(Some(16)), 2);
}

#[test]
fn adding_and_removing_leaves_the_sums_as_they_were() {
    let mut b = TreeBuilder::new();
    b.apply(upsert(
        None,
        "/r",
        NodeParams::named("/r", NodeKind::Directory),
    ));
    b.apply(upsert(
        Some("/r"),
        "/r/d",
        NodeParams::named("d", NodeKind::Directory),
    ));
    let before = (
        b.tree().node(0).agg_logical,
        b.tree().node(0).agg_files,
        b.tree().node(0).agg_dirs,
    );
    let id = b
        .apply_tracked(upsert(
            Some("/r/d"),
            "/r/d/f",
            NodeParams::named("f", NodeKind::File).sizes(9, 9),
        ))
        .unwrap();
    assert_eq!(b.tree().node(0).agg_logical, 9);
    b.remove_node(id);
    let after = (
        b.tree().node(0).agg_logical,
        b.tree().node(0).agg_files,
        b.tree().node(0).agg_dirs,
    );
    assert_eq!(before, after);
}

#[test]
fn problems_are_handed_on_with_their_entries() {
    let mut scanner = WalkScanner::new();
    let mut walked = scanner.start("/t", RootProbe::Found).unwrap();
    let opts = ScanOptions::default();
    let refused = WalkItem::Entry(WalkEntry {
        path: "/t/locked".to_string(),
        parent_path: "/t".to_string(),
        depth: 1,
        file_name: "locked".to_string(),
        file_type: EntryType::Directory,
        reading: Reading::Meta(meta(4096, None)),
        denied: Some("permission denied".to_string()),
    });
    match walked.step(&mut scanner, refused, &opts, false) {
        WalkStep::Emit(u, Some(problem), None) => {
            assert_eq!(u.path, "/t/locked");
            assert_eq!(u.params.kind, NodeKind::Unaccessible);
            assert_eq!(problem.path.as_deref(), Some("/t/locked"));
            assert_eq!(problem.message, "permission denied");
        }
        _ => panic!("a refused directory is told of twice"),
    }
    match walked.step(&mut scanner, file("/t", "f", 3), &opts, false) {
        WalkStep::Emit(u, None, None) => assert_eq!(u.path, "/t/f"),
        _ => panic!("a file has no problem"),
    }
    let broken = WalkItem::Error("loop".to_string());
    match walked.step(&mut scanner, broken, &opts, false) {
        WalkStep::Problem(problem) => {
            assert_eq!(problem.path, None);
            assert_eq!(problem.message, "loop");
        }
        _ => panic!("an error of the walk is handed on"),
    }
    assert_eq!(walked.finish(0).errors.len(), 2);
}

#[test]
fn every_entry_is_counted_once() {
    let unread = entry(
        "/t",
        "x",
        EntryType::File,
        Reading::Failed("gone".to_string()),
    );
    let items = vec![root_entry("/t"), dir("/t", "d"), file("/t/d", "f", 3), unread];
    let (tree, summary) =
        scan_tree("/t", RootProbe::Found, items, &ScanOptions::default(), 0).unwrap();
    assert_eq!(
        (summary.entries, summary.files, summary.dirs, summary.unaccessible),
        (4, 1, 2, 1)
    );
    assert_eq!(tree.len() as u64, summary.entries);
}
