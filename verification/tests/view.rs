//! Views: navigation, filters, tags, streamed and watched changes.
use rss::filter::{evaluate, Filter, FilterVerdict};
use rss::node::{NodeKind, NodeParams, Tag};
use rss::scan::{ScanEvent, ScanSummary, Upsert};
use rss::time::filetime_from_unix;
use rss::tree::Tree;
use rss::view::{CellRect, ScanView, WatchEvent, WatchOutcome, FLASH_MS};
use rss::NodeId;

/// A file time for filters to go by.
fn now() -> i64 {
    filetime_from_unix(1_700_000_000)
}

/// Small deterministic tree: root(dir) with files a(100), b(300) and
/// subdir d with file c(600).
fn sample_tree() -> (Tree, NodeId, NodeId, NodeId, NodeId, NodeId) {
    let mut tree = Tree::with_root(NodeParams::named("root", NodeKind::Directory));
    let root = tree.root().unwrap();
    let a = tree.add_child(
        root,
        NodeParams::named("a.bin", NodeKind::File).sizes(100, 100),
    );
    let b = tree.add_child(
        root,
        NodeParams::named("b.bin", NodeKind::File).sizes(300, 300),
    );
    let d = tree.add_child(root, NodeParams::named("d", NodeKind::Directory));
    let c = tree.add_child(
        d,
        NodeParams::named("c.bin", NodeKind::File).sizes(600, 600),
    );
    (tree, root, a, b, d, c)
}

fn sample_view() -> ScanView {
    let (tree, root, ..) = sample_tree();
    ScanView::new(tree, root, "root".to_string(), ScanSummary::default())
}

/// Every node, the root first.
fn all_ids(view: &ScanView) -> Vec<NodeId> {
    let mut ids = Vec::new();
    let mut stack = vec![view.root];
    while let Some(id) = stack.pop() {
        ids.push(id);
        stack.extend(view.tree().children(id).collect());
    }
    ids
}

/// Find a node by name anywhere under the root.
fn find(view: &ScanView, name: &str) -> NodeId {
    for id in all_ids(view) {
        if view.tree().node(id).name == name {
            return id;
        }
    }
    panic!("no node named {name}");
}

fn upsert(parent: Option<&str>, path: &str, params: NodeParams) -> ScanEvent {
    ScanEvent::Upsert(Upsert {
        parent_path: parent.map(String::from),
        path: path.to_string(),
        params,
    })
}

#[test]
fn navigation_history_round_trip() {
    let (tree, root, _a, _b, d, _c) = sample_tree();
    let summary = ScanSummary::default();
    let mut view = ScanView::new(tree, root, "root".to_string(), summary);

    assert_eq!(view.zoom, root);
    assert!(!view.can_go_back() && !view.can_go_forward());

    view.navigate_to(d);
    assert_eq!(view.zoom, d);
    assert!(view.can_go_back());

    view.go_back();
    assert_eq!(view.zoom, root);
    assert!(view.can_go_forward());

    view.go_forward();
    assert_eq!(view.zoom, d);

    // A fresh navigation clears the forward stack.
    view.go_back();
    view.navigate_to(d);
    assert!(!view.can_go_forward());

    // Breadcrumbs and zoom-out.
    let trail = view.breadcrumb();
    assert_eq!(trail, vec![root, d]);
    view.zoom_out_one();
    assert_eq!(view.zoom, root);
    view.zoom_out_one(); // no-op at root, does not panic
    assert_eq!(view.zoom, root);

    view.navigate_to(d);
    view.zoom_home();
    assert_eq!(view.zoom, root);
}

#[test]
fn verdicts_update_with_filter_text() {
    let mut view = sample_view();
    let (a, b, d, c) = (
        find(&view, "a.bin"),
        find(&view, "b.bin"),
        find(&view, "d"),
        find(&view, "c.bin"),
    );

    view.filter_text = "*.jpg".to_string(); // nothing matches
    view.sync(0, now());
    assert!(view.has_active_filter());
    for id in [a, b, d, c, view.root] {
        assert_eq!(view.verdict(id), FilterVerdict::Hidden);
    }

    view.filter_text = "*.bin".to_string(); // every file matches
    view.sync(0, now());
    assert_eq!(view.verdict(a), FilterVerdict::Visible);
    assert_eq!(view.verdict(b), FilterVerdict::Visible);
    assert_eq!(view.verdict(c), FilterVerdict::Visible);
    assert_eq!(view.verdict(d), FilterVerdict::Dimmed); // contains c.bin
    assert_eq!(view.verdict(view.root), FilterVerdict::Dimmed);

    view.filter_text = String::new();
    view.sync(0, now());
    assert!(!view.has_active_filter());
    for id in [a, b, d, c, view.root] {
        assert_eq!(view.verdict(id), FilterVerdict::Visible);
    }
}

/// The verdicts of a view are those of the filter, node by node, for a mix of
/// mask, size, age and tag filters.
#[test]
fn verdicts_match_rss_filter_evaluate() {
    let mut view = sample_view();
    let ids = all_ids(&view);
    for filter_text in ["*.bin;>150b", "c.?in", ">1kb", "|*.bin", ":red"] {
        view.filter_text = filter_text.to_string();
        view.sync(0, now());
        let filter = Filter::parse(filter_text, &[]);
        assert!(filter.warnings().is_empty());
        for &id in &ids {
            assert_eq!(
                view.verdict(id),
                evaluate(view.tree(), id, &filter, now()),
                "filter {filter_text:?}, node {id}"
            );
        }
    }
}

#[test]
fn tags_toggle_and_clear() {
    let mut view = sample_view();
    let a = find(&view, "a.bin");
    let c = find(&view, "c.bin");

    view.selected = Some(a);
    view.toggle_selected_tag(Tag::Red);
    assert_eq!(view.tree().node(a).tag, Some(Tag::Red));
    // A different tag replaces.
    view.toggle_selected_tag(Tag::Blue);
    assert_eq!(view.tree().node(a).tag, Some(Tag::Blue));
    // The same tag again clears.
    view.toggle_selected_tag(Tag::Blue);
    assert_eq!(view.tree().node(a).tag, None);

    // No selection: no-op.
    view.selected = None;
    view.toggle_selected_tag(Tag::Green);
    assert_eq!(view.tree().node(a).tag, None);

    // Everything under the zoom is cleared, across nesting levels.
    view.toggle_tag(a, Tag::Red);
    view.toggle_tag(c, Tag::Green);
    view.clear_tags_below(view.zoom);
    assert_eq!(view.tree().node(a).tag, None);
    assert_eq!(view.tree().node(c).tag, None);
}

#[test]
fn tag_filter_verdicts_follow_tag_changes() {
    let mut view = sample_view();
    let a = find(&view, "a.bin");

    view.filter_text = ":red".to_string();
    view.sync(0, now());
    assert_eq!(view.verdict(a), FilterVerdict::Hidden);

    view.toggle_tag(a, Tag::Red);
    view.sync(0, now()); // verdicts invalidated by the tag change
    assert_eq!(view.verdict(a), FilterVerdict::Visible);
}

/// A view folds streamed events progressively and stays navigable mid-scan.
#[test]
fn progressive_events_build_a_navigable_tree() {
    let mut view = ScanView::for_scan("/scan".to_string());
    view.apply_scan_event(upsert(
        None,
        "/scan",
        NodeParams::named("/scan", NodeKind::Directory),
    ));
    assert_eq!(view.tree().root(), Some(view.root));
    view.apply_scan_event(upsert(
        Some("/scan"),
        "/scan/d",
        NodeParams::named("d", NodeKind::Directory),
    ));
    // Navigable after two events, before the scan is done.
    let d = view.find_by_path("/scan/d").unwrap();
    view.navigate_to(d);
    assert_eq!(view.zoom, d);
    view.apply_scan_event(upsert(
        Some("/scan/d"),
        "/scan/d/f.bin",
        NodeParams::named("f.bin", NodeKind::File).sizes(50, 50),
    ));
    assert_eq!(view.tree().node(view.root).agg_logical, 50);
    view.go_back();
    assert_eq!(view.zoom, view.root);
}

/// Watched changes patch the tree; removals drop subtrees and fix navigation
/// state; dirty subtrees ask for rescans.
#[test]
fn watch_events_patch_the_tree() {
    let mut view = sample_view();
    let d = find(&view, "d");
    let c = find(&view, "c.bin");

    // New file under d that does not exist on disk: ignored.
    let outcome = view.apply_watch_event(&WatchEvent::Upsert("root/d/new.bin".to_string()), None);
    assert_eq!(outcome, WatchOutcome::Ignored);

    // Upsert of an existing but on-disk-vanished entry is a removal.
    let outcome = view.apply_watch_event(&WatchEvent::Upsert("root/a.bin".to_string()), None);
    assert_eq!(outcome, WatchOutcome::Applied);
    assert!(view.find_by_path("root/a.bin").is_none());

    // Removal of a directory fixes zoom/selection/history.
    view.selected = Some(c);
    view.navigate_to(d);
    let outcome = view.apply_watch_event(&WatchEvent::Remove("root/d".to_string()), None);
    assert_eq!(outcome, WatchOutcome::Applied);
    assert_eq!(view.zoom, view.root, "zoom falls back to the parent");
    assert_eq!(view.selected, None);
    // The back stack held [root] (from navigate_to); the removed d must
    // be purged from it. Going back lands on root — never a recycled id.
    view.go_back();
    assert_eq!(view.zoom, view.root);
    assert!(!view.can_go_back());
    assert_eq!(view.tree().node(view.root).agg_logical, 300); // b.bin left

    // Root removal asks for a full rescan.
    let outcome = view.apply_watch_event(&WatchEvent::Remove("root".to_string()), None);
    assert_eq!(outcome, WatchOutcome::RescanFull);

    // SubtreeDirty at a subpath asks for a subtree rescan; at the root,
    // a full rescan.
    let outcome = view.apply_watch_event(&WatchEvent::SubtreeDirty("root/b.bin".to_string()), None);
    assert_eq!(
        outcome,
        WatchOutcome::RescanSubtree("root/b.bin".to_string())
    );
    let outcome = view.apply_watch_event(&WatchEvent::SubtreeDirty("root".to_string()), None);
    assert_eq!(outcome, WatchOutcome::RescanFull);
}

#[test]
fn watched_changes_restat_and_add() {
    let mut view = sample_view();
    let b = find(&view, "b.bin");
    let grown = NodeParams::named("b.bin", NodeKind::File).sizes(1_300, 1_300);
    let outcome =
        view.apply_watch_event(&WatchEvent::Upsert("root/b.bin".to_string()), Some(grown));
    assert_eq!(outcome, WatchOutcome::Applied);
    assert_eq!(view.tree().node(b).logical_size, 1_300);
    assert_eq!(view.tree().node(view.root).agg_logical, 2_000);

    let new = NodeParams::named("n.bin", NodeKind::File).sizes(5, 5);
    let outcome =
        view.apply_watch_event(&WatchEvent::Upsert("root/d/n.bin".to_string()), Some(new));
    assert_eq!(outcome, WatchOutcome::Applied);
    assert!(view.find_by_path("root/d/n.bin").is_some());
    assert_eq!(view.tree().node(view.root).agg_logical, 2_005);
}

/// Flashes track changed nodes and expire; the toggle works.
#[test]
fn flash_marks_expire() {
    let mut view = ScanView::for_scan("/scan".to_string());
    view.apply_scan_event(upsert(
        None,
        "/scan",
        NodeParams::named("/scan", NodeKind::Directory),
    ));
    assert!(view.update_flashes(10_000));
    assert!(view.flash_alpha(view.root, 10_100).is_some());
    // After the flash duration, marks are gone.
    assert!(!view.update_flashes(10_000 + FLASH_MS + 100));
    assert!(view.flash_alpha(view.root, 20_000).is_none());

    // Disabled flash: no marks collected.
    view.flash_enabled = false;
    view.apply_scan_event(upsert(
        Some("/scan"),
        "/scan/f.bin",
        NodeParams::named("f.bin", NodeKind::File).sizes(1, 1),
    ));
    assert!(!view.update_flashes(30_000));
}

/// A change of zoom is shown for its time; a time of 0 means instant.
#[test]
fn zoom_animation_transform() {
    let mut view = sample_view();
    let d = find(&view, "d");
    view.zoom_anim_ms = 100;
    view.navigate_from_rect(
        d,
        CellRect {
            x: 10,
            y: 20,
            w: 50,
            h: 25,
        },
    );
    assert!(view.is_animating(0));
    view.begin_anim(0);
    assert!(view.anim_active());
    assert!(view.is_animating(99));
    assert!(!view.is_animating(150));

    // Instant mode: no animation.
    view.zoom_anim_ms = 0;
    view.navigate_to(view.root);
    assert!(!view.is_animating(0));
    assert!(!view.anim_active());
}

#[test]
fn dropped_subtrees_leave_nothing_behind() {
    let mut view = sample_view();
    let d = find(&view, "d");
    let c = find(&view, "c.bin");
    view.navigate_to(d);
    view.navigate_to(c);
    view.selected = Some(c);
    view.drop_subtree(d);
    assert_eq!(view.zoom, view.root);
    assert_eq!(view.selected, None);
    assert!(view.back.iter().all(|&x| x != d && x != c));
}

#[test]
fn toggling_twice_changes_nothing() {
    let mut view = sample_view();
    let a = find(&view, "a.bin");
    view.toggle_tag(a, Tag::Yellow);
    view.toggle_tag(a, Tag::Yellow);
    assert_eq!(view.tree().node(a).tag, None);
    let mode = view.size_mode;
    view.toggle_size_mode();
    assert_ne!(view.size_mode, mode);
    view.toggle_size_mode();
    assert_eq!(view.size_mode, mode);
}

#[test]
fn levels_shown_stay_within_bounds() {
    let mut view = sample_view();
    view.display_depth = 1;
    view.adjust_display_depth(-1);
    assert_eq!(view.display_depth, 1);
    view.adjust_display_depth(3);
    assert_eq!(view.display_depth, 4);
}

#[test]
fn a_view_of_part_of_a_tree_starts_at_its_own_root() {
    let (tree, root, _, b, d, c) = sample_tree();
    let mut view = ScanView::new(tree, d, "root/d".to_string(), ScanSummary::default());
    view.navigate_to(c);
    assert_eq!(view.breadcrumb(), [d, c]);
    view.zoom_out_one();
    assert_eq!(view.zoom, d);
    // There is no way further up from where the scan started.
    view.zoom_out_one();
    assert_eq!((view.zoom, view.back.len()), (d, 2));
    assert_eq!(view.breadcrumb(), [d]);
    // Elsewhere in the tree the way starts at the root of the tree.
    view.navigate_to(b);
    assert_eq!(view.breadcrumb(), [root, b]);
}
