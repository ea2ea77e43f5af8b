//! What the windows show and do, decision by decision.
use rss::app_shell::{
    dropped_snapshot, sort_dropped, split_paths, CmdEffect, KeyEffect, RssApp, StartDialog,
};
use rss::config::{Config, ThemeSetting};
use rss::controls::{
    breadcrumbs, key_action, log_lines, press, status, toolbar, Button, Held, Key, KeyAction,
};
use rss::diskspace::DiskSpace;
use rss::entry::{regraft, ScanMsg, Told, ViewEntry};
use rss::export::export_csv;
use rss::fileops::{delete_plan_for, DeleteMsg};
use rss::filter::FilterVerdict;
use rss::node::{NodeKind, NodeParams, Tag};
use rss::scan::{ScanEvent, ScanOptions, ScanProblem, ScanSummary, Upsert};
use rss::time::filetime_from_unix;
use rss::tree::Tree;
use rss::treemap::{
    cell_color, clicks, is_dimmed, layout_items, pseudo_cell, shows_children, tooltip, TreemapCmd,
};
use rss::view::{CellRect, ColorStyle, ScanView, WatchEvent, WatchOutcome, FREE_SPACE_ID};
use rss::view_export::{load_snapshot, save_snapshot, ExportKind};
use rss::walk::{
    EntryType, MetaValues, Reading, RootProbe, WalkEntry, WalkItem, WalkScanner, WalkStep,
};
use rss::NodeId;

fn now() -> i64 {
    filetime_from_unix(1_700_000_000)
}

/// `root/` with `a.jpg` (100), `b.txt` (200) and `pics/` holding `c.jpg` (300).
fn filter_tree() -> (Tree, NodeId) {
    let mut tree = Tree::with_root(NodeParams::named("root", NodeKind::Directory));
    let root = tree.root().unwrap();
    tree.add_child(
        root,
        NodeParams::named("a.jpg", NodeKind::File).sizes(100, 100),
    );
    tree.add_child(
        root,
        NodeParams::named("b.txt", NodeKind::File).sizes(200, 200),
    );
    let pics = tree.add_child(root, NodeParams::named("pics", NodeKind::Directory));
    tree.add_child(
        pics,
        NodeParams::named("c.jpg", NodeKind::File).sizes(300, 300),
    );
    (tree, root)
}

/// An app that shows a tree.
fn app_with(tree: Tree, root: NodeId) -> RssApp {
    let mut app = RssApp::with_config(Config::default());
    app.attach_tree(tree, root, "root".to_string(), ScanSummary::default());
    app
}

fn filter_app() -> RssApp {
    let (tree, root) = filter_tree();
    app_with(tree, root)
}

fn view_of(app: &mut RssApp) -> &mut ScanView {
    &mut app.entries[0].view
}

fn type_filter(app: &mut RssApp, text: &str) {
    let view = view_of(app);
    view.filter_text = text.to_string();
    view.sync(0, now());
}

fn find_node(view: &ScanView, name: &str) -> NodeId {
    let mut stack = vec![view.root];
    while let Some(id) = stack.pop() {
        if view.tree().node(id).name == name {
            return id;
        }
        stack.extend(view.tree().children(id).collect());
    }
    panic!("no node named {name}");
}

/// The names of the elements inside a node.
fn shown(view: &ScanView, id: NodeId) -> Vec<String> {
    layout_items(view, id)
        .iter()
        .map(|&(x, _)| {
            if x == FREE_SPACE_ID {
                pseudo_cell(view, x).0.to_string()
            } else {
                view.tree().node(x).name.clone()
            }
        })
        .collect()
}

fn press_key(app: &mut RssApp, held: Held, key: Key) -> KeyEffect {
    let action = key_action(held, key, false, false).unwrap();
    app.apply_key(action)
}

fn upsert(parent: Option<&str>, path: &str, params: NodeParams) -> ScanEvent {
    ScanEvent::Upsert(Upsert {
        parent_path: parent.map(String::from),
        path: path.to_string(),
        params,
    })
}

#[test]
fn start_dialog_appears_on_launch() {
    let app = RssApp::with_config(Config::default());
    assert!(app.start.open);
    assert_eq!(app.view_count(), 0);
    let line = status(&ViewEntry::new(), None, &None);
    assert!(line[0].contains("press Ctrl+N"));
}

#[test]
fn start_dialog_path_field_scans_on_enter() {
    let mut dialog = StartDialog::new();
    assert!(dialog.submit_paths().is_empty(), "there is no path yet");
    assert_eq!(dialog.error.as_deref(), Some("enter a path to scan"));
    dialog.path = "/data; /home/u ".to_string();
    assert_eq!(dialog.submit_paths(), ["/data", "/home/u"]);
    assert_eq!(split_paths("a;;b"), ["a", "b"]);
}

#[test]
fn single_click_selects_and_double_click_zooms() {
    let mut app = filter_app();
    let pics = find_node(app.view().unwrap(), "pics");
    let a_jpg = find_node(app.view().unwrap(), "a.jpg");
    let rect = CellRect {
        x: 0,
        y: 0,
        w: 10,
        h: 10,
    };

    let cmds = clicks(app.view().unwrap(), a_jpg, rect, true, false, false);
    for cmd in cmds {
        app.dispatch(0, cmd);
    }
    assert_eq!(app.view().unwrap().selected, Some(a_jpg));

    let cmds = clicks(app.view().unwrap(), pics, rect, true, true, false);
    for cmd in cmds {
        app.dispatch(0, cmd);
    }
    let view = app.view().unwrap();
    assert_eq!(view.zoom, pics, "double-click zoomed into `pics`");
    assert_eq!(view.selected, None, "zoom clears the selection");
    assert!(view.can_go_back());
}

#[test]
fn back_forward_keyboard_and_breadcrumb_navigation() {
    let mut app = filter_app();
    let root = app.view().unwrap().root;
    let pics = find_node(app.view().unwrap(), "pics");
    view_of(&mut app).navigate_to(pics);
    let crumbs = breadcrumbs(app.view().unwrap());
    assert_eq!(
        crumbs,
        vec![(root, "root".to_string()), (pics, "pics".to_string())]
    );
    // A click on the root crumb navigates back to it.
    view_of(&mut app).navigate_to(crumbs[0].0);
    assert_eq!(app.view().unwrap().zoom, root);
    // Breadcrumb clicks are plain navigations.
    assert!(app.view().unwrap().can_go_back());
    assert!(!app.view().unwrap().can_go_forward());

    view_of(&mut app).navigate_to(pics);
    press_key(&mut app, Held::Nothing, Key::Backspace);
    assert_eq!(app.view().unwrap().zoom, root);
    press_key(&mut app, Held::Shift, Key::Backspace);
    assert_eq!(app.view().unwrap().zoom, pics);
    press_key(&mut app, Held::Ctrl, Key::ArrowUp);
    assert_eq!(app.view().unwrap().zoom, root);
    view_of(&mut app).navigate_to(pics);
    press_key(&mut app, Held::Ctrl, Key::Home);
    assert_eq!(app.view().unwrap().zoom, root);
}

#[test]
fn hover_tooltip_shows_sizes_and_dates() {
    let app = filter_app();
    let view = app.view().unwrap();
    let lines = tooltip(view, find_node(view, "pics"));
    let has = |part: &str| lines.iter().any(|l| l.contains(part));
    assert!(has("On-disk size:"));
    assert!(has("Logical size:"));
    assert!(has("Modified:"));
    assert!(has("Children: 1"));
}

#[test]
fn ctrl_n_reopens_start_dialog() {
    let mut app = filter_app();
    app.start.open = false;
    // Even while a text field takes keys.
    let action = key_action(Held::Ctrl, Key::N, false, true).unwrap();
    assert_eq!(action, KeyAction::OpenStartDialog);
    app.apply_key(action);
    assert!(app.start.open);
}

#[test]
fn zero_size_files_are_hidden_but_counted() {
    let mut tree = Tree::with_root(NodeParams::named("root", NodeKind::Directory));
    let root = tree.root().unwrap();
    tree.add_child(
        root,
        NodeParams::named("real.bin", NodeKind::File).sizes(1024, 1024),
    );
    tree.add_child(root, NodeParams::named("empty.bin", NodeKind::File));
    let app = app_with(tree, root);
    let view = app.view().unwrap();
    let weights: Vec<(String, u64)> = layout_items(view, root)
        .iter()
        .map(|&(id, weight)| (view.tree().node(id).name.clone(), weight))
        .collect();
    assert!(weights.contains(&("real.bin".to_string(), 1024)));
    assert!(
        weights.contains(&("empty.bin".to_string(), 0)),
        "zero-size files occupy zero area and are never displayed"
    );
    // …but they remain counted in the model and the status bar.
    assert!(status(&app.entries[0], None, &None)[0].contains("2 files"));
}

#[test]
fn filter_dims_nonmatching_cells_and_never_rescans() {
    let mut app = filter_app();
    type_filter(&mut app, "*.jpg");
    let view = app.view().unwrap();
    assert_eq!(
        view.verdict(find_node(view, "a.jpg")),
        FilterVerdict::Visible
    );
    let b_txt = find_node(view, "b.txt");
    assert_eq!(view.verdict(b_txt), FilterVerdict::Hidden);
    assert_eq!(view.verdict(find_node(view, "pics")), FilterVerdict::Dimmed);
    assert_eq!(view.verdict(view.root), FilterVerdict::Dimmed);
    assert!(view.filter_warnings().is_empty());

    // Every cell stays on the map.
    assert_eq!(shown(view, view.root).len(), 3);
    assert!(is_dimmed(view, b_txt));

    // Filtering never rescans and never touches the model.
    assert!(!app.is_scanning());
    assert_eq!(view.tree().node(view.root).agg_logical, 600);
}

#[test]
fn filter_hard_hide_removes_hidden_cells() {
    let mut app = filter_app();
    type_filter(&mut app, "*.jpg");
    assert_eq!(toolbar(&app.entries[0]).hide_label, "Filtered: dim");
    view_of(&mut app).toggle_hard_hide();
    assert_eq!(toolbar(&app.entries[0]).hide_label, "Filtered: hide");
    let view = app.view().unwrap();
    let names = shown(view, view.root);
    assert!(
        !names.contains(&"b.txt".to_string()),
        "hard-hidden cells leave the layout"
    );
    // Dimmed containers of matches stay.
    assert!(names.contains(&"pics".to_string()));
    assert_eq!(shown(view, find_node(view, "pics")), ["c.jpg"]);

    // Toggle back to dim: the cell reappears.
    view_of(&mut app).toggle_hard_hide();
    let view = app.view().unwrap();
    assert!(shown(view, view.root).contains(&"b.txt".to_string()));
}

#[test]
fn filter_parse_warning_is_inline() {
    let mut app = filter_app();
    type_filter(&mut app, ":class:Nope");
    // The warning quotes the offending condition by its span.
    let notes = toolbar(&app.entries[0]).warnings;
    assert!(notes[0].contains("`:class:Nope`"));

    // The bad condition is dropped, everything stays visible.
    let view = app.view().unwrap();
    assert!(!view.filter_warnings().is_empty());
    assert_eq!(
        view.verdict(find_node(view, "b.txt")),
        FilterVerdict::Visible
    );
}

#[test]
fn tag_shortcuts_update_model_and_render() {
    let mut app = filter_app();
    let a_jpg = find_node(app.view().unwrap(), "a.jpg");
    let b_txt = find_node(app.view().unwrap(), "b.txt");
    let tag = |app: &RssApp, id: NodeId| app.view().unwrap().tree().node(id).tag;

    app.dispatch(0, TreemapCmd::Select(a_jpg));
    press_key(&mut app, Held::Ctrl, Key::Num2);
    assert_eq!(tag(&app, a_jpg), Some(Tag::Yellow));

    // Bare digits tag too, while no text field takes keys.
    press_key(&mut app, Held::Nothing, Key::Num1);
    assert_eq!(
        tag(&app, a_jpg),
        Some(Tag::Red),
        "a different tag replaces the previous one"
    );
    assert!(key_action(Held::Nothing, Key::Num1, false, true).is_none());

    // Same tag key again clears it.
    press_key(&mut app, Held::Nothing, Key::Num1);
    assert_eq!(tag(&app, a_jpg), None);

    // Tag two nodes, then clear everything under the zoom.
    press_key(&mut app, Held::Nothing, Key::Num1);
    app.dispatch(0, TreemapCmd::Select(b_txt));
    press_key(&mut app, Held::Ctrl, Key::Num3);
    assert_eq!(tag(&app, a_jpg), Some(Tag::Red));
    assert_eq!(tag(&app, b_txt), Some(Tag::Green));
    press_key(&mut app, Held::Ctrl, Key::Num0);
    assert_eq!(tag(&app, a_jpg), None);
    assert_eq!(tag(&app, b_txt), None);
}

#[test]
fn color_style_toggles_with_ctrl_t_and_toolbar() {
    let mut app = filter_app();
    assert_eq!(app.view().unwrap().color_style, ColorStyle::Flat);
    assert_eq!(toolbar(&app.entries[0]).color_label, "Colors: flat");
    let a_jpg = find_node(app.view().unwrap(), "a.jpg");
    let flat = cell_color(app.view().unwrap(), a_jpg);

    press_key(&mut app, Held::Ctrl, Key::T);
    assert_eq!(app.view().unwrap().color_style, ColorStyle::FileClasses);
    assert_eq!(toolbar(&app.entries[0]).color_label, "Colors: classes");
    assert_ne!(cell_color(app.view().unwrap(), a_jpg), flat);

    press_key(&mut app, Held::Ctrl, Key::T);
    assert_eq!(app.view().unwrap().color_style, ColorStyle::Flat);
}

#[test]
fn filtered_elements_stay_in_aggregates_and_exports() {
    let mut app = filter_app();
    type_filter(&mut app, "*.jpg");

    // Totals still count hidden elements.
    let line = &status(&app.entries[0], None, &None)[0];
    assert!(line.contains("3 files, 2 dirs"));
    assert!(line.contains("600"));

    // Exports run on the model and hold filter-hidden nodes.
    let view = app.view().unwrap();
    let mut csv = Vec::new();
    export_csv(view.tree(), view.root, &mut csv).unwrap();
    let csv = String::from_utf8(csv).unwrap();
    assert!(csv.contains("b.txt"), "hidden node stays in the export");
    assert!(csv.contains("c.jpg"), "dimmed subtree stays in the export");
}

#[test]
fn progressive_population_mid_scan() {
    let mut app = RssApp::with_config(Config::default());
    let idx = app.open_scan();
    app.scan_started(idx, "/prog".to_string(), true);
    app.set_root_scan_paused(true);
    assert!(app.is_scanning());
    assert!(app.root_scan_paused());
    assert!(!app.view().unwrap().has_root());

    let entry = &mut app.entries[0];
    entry.take(ScanMsg::Event(upsert(
        None,
        "/prog",
        NodeParams::named("/prog", NodeKind::Directory),
    )));
    assert!(entry.view.has_root());
    assert_eq!(entry.view.tree().len(), 1, "only the root folded so far");
    entry.take(ScanMsg::Event(upsert(
        Some("/prog"),
        "/prog/first.bin",
        NodeParams::named("first.bin", NodeKind::File).sizes(100, 4096),
    )));
    assert_eq!(shown(&entry.view, entry.view.root), ["first.bin"]);
    entry.take(ScanMsg::Event(upsert(
        Some("/prog"),
        "/prog/d0",
        NodeParams::named("d0", NodeKind::Directory),
    )));
    entry.take(ScanMsg::Event(upsert(
        Some("/prog/d0"),
        "/prog/d0/f.bin",
        NodeParams::named("f.bin", NodeKind::File).sizes(100, 4096),
    )));

    // The partial tree is navigable mid-scan.
    let d0 = find_node(&entry.view, "d0");
    entry.view.navigate_to(d0);
    assert_eq!(entry.view.zoom, d0);

    // Resume: the scan ends and changes are watched from then on.
    app.set_root_scan_paused(false);
    assert!(!app.root_scan_paused());
    let told = app.entries[0].take(ScanMsg::Finished(Ok(ScanSummary::default())));
    assert!(matches!(told, Told::StartWatcher));
    assert!(!app.is_scanning());
}

#[test]
fn pause_and_cancel_real_scan() {
    const ENTRIES: usize = 24_001;
    let mut app = RssApp::with_config(Config::default());
    let idx = app.open_scan();
    app.scan_started(idx, "/big".to_string(), true);
    app.set_root_scan_paused(true);
    // Paused from the start: the walk waits, and nothing is there.
    assert!(app.root_scan_paused());
    assert!(asked_of(&app).must_wait());
    assert!(app.is_scanning());
    assert_eq!(app.view().unwrap().tree().len(), 0);

    app.set_root_scan_paused(false);
    assert!(!asked_of(&app).must_wait());
    let mut scanner = WalkScanner::new();
    let mut walked = scanner.start("/big", RootProbe::Found).unwrap();
    for i in 0..ENTRIES {
        let item = walk_item(i);
        let opts = asked_of(&app);
        if let WalkStep::Emit(u, _, _) = walked.step(&mut scanner, item, &opts, false) {
            app.entries[0].take(ScanMsg::Event(ScanEvent::Upsert(u)));
        }
        if app.view().unwrap().tree().len() == 1000 {
            app.cancel_scan();
        }
    }
    app.entries[0].take(ScanMsg::Finished(Ok(walked.finish(1))));
    assert!(!app.is_scanning());
    let view = app.view().unwrap();
    assert!(view.summary.as_ref().unwrap().cancelled);
    let len = view.tree().len();
    assert!(len > 1, "partial tree is browsable");
    assert!(len < ENTRIES, "cancelled scan kept a partial tree: {len}");
    assert_eq!(shown(view, view.root).len(), len - 1);
}

/// What the first view asks of its scan.
fn asked_of(app: &RssApp) -> ScanOptions {
    let scan = app.entries[0].scan.unwrap();
    ScanOptions {
        cancel: scan.cancel,
        pause: scan.pause,
        ..Default::default()
    }
}

/// The root of a wide directory, or one of its files.
fn walk_item(i: usize) -> WalkItem {
    WalkItem::Entry(WalkEntry {
        path: if i == 0 {
            "/big".to_string()
        } else {
            format!("/big/f{i}")
        },
        parent_path: "/big".to_string(),
        depth: usize::from(i > 0),
        file_name: format!("f{i}"),
        file_type: if i == 0 {
            EntryType::Directory
        } else {
            EntryType::File
        },
        reading: Reading::Meta(MetaValues {
            logical: 1,
            allocated: 1,
            hardlink_key: None,
            created: 0,
            accessed: 0,
            modified: 0,
        }),
        denied: None,
    })
}

#[test]
fn f5_rescan_picks_up_fs_changes() {
    let mut app = filter_app();
    assert!(matches!(
        press_key(&mut app, Held::Nothing, Key::F5),
        KeyEffect::Rescan
    ));
    let path = app.entries[0].rescan_path().unwrap();
    assert_eq!(path, "root");
    app.prepare_scan(0);
    app.scan_started(0, path, true);
    // The old tree stays until the new root comes.
    assert_eq!(app.view().unwrap().tree().len(), 5);
    app.entries[0].take(ScanMsg::Event(upsert(
        None,
        "root",
        NodeParams::named("root", NodeKind::Directory),
    )));
    assert_eq!(app.view().unwrap().tree().len(), 1);
    app.entries[0].take(ScanMsg::Event(upsert(
        Some("root"),
        "root/late.bin",
        NodeParams::named("late.bin", NodeKind::File).sizes(2048, 4096),
    )));
    let view = app.view().unwrap();
    assert_eq!(shown(view, view.root), ["late.bin"]);
}

#[test]
fn free_space_element_at_drive_root() {
    let mut tree = Tree::with_root(NodeParams::named("/", NodeKind::Directory));
    let root = tree.root().unwrap();
    tree.add_child(
        root,
        NodeParams::named("usr", NodeKind::Directory).sizes(1 << 30, 1 << 30),
    );
    let mut app = RssApp::with_config(Config::default());
    app.attach_tree(tree, root, "/".to_string(), ScanSummary::default());
    assert!(app.view().unwrap().is_drive_view);
    view_of(&mut app).set_drive_space(
        0,
        Some(DiskSpace {
            total: 4 << 30,
            free: 1 << 30,
        }),
    );
    let has_free = |app: &RssApp| {
        let view = app.view().unwrap();
        shown(view, view.zoom).contains(&"Free space".to_string())
    };
    assert!(has_free(&app));

    press_key(&mut app, Held::Ctrl, Key::F);
    assert!(!has_free(&app));
    press_key(&mut app, Held::Ctrl, Key::F);
    assert!(has_free(&app));

    // Zoomed views exclude it.
    let usr = find_node(app.view().unwrap(), "usr");
    view_of(&mut app).navigate_to(usr);
    assert!(!has_free(&app));
}

#[test]
fn multi_view_opens_viewport_per_scan() {
    let mut app = RssApp::with_config(Config::default());
    for path in ["/one", "/two"] {
        let idx = app.open_scan();
        app.scan_started(idx, path.to_string(), true);
    }
    assert_eq!(app.view_count(), 2);
    assert_eq!(app.view_path(0), Some("/one"));
    assert_eq!(app.view_path(1), Some("/two"));
    assert_eq!(app.view_path(2), None);
    // A closed window takes its view along; the first stays.
    app.entries[1].open = false;
    app.drop_closed();
    assert_eq!(app.view_count(), 1);
}

#[test]
fn zoom_animation_lifecycle() {
    let mut app = filter_app();
    let pics = find_node(app.view().unwrap(), "pics");
    let view = view_of(&mut app);
    view.navigate_from_rect(
        pics,
        CellRect {
            x: 10,
            y: 10,
            w: 100,
            h: 80,
        },
    );
    assert!(view.anim_active(), "animation running after zoom");
    view.begin_anim(0);
    assert!(!view.is_animating(400));
    view.end_anim();
    assert!(!view.anim_active());

    // Instant mode: no animation at all.
    view.zoom_anim_ms = 0;
    view.navigate_to(view.root);
    assert!(!view.anim_active());
}

#[test]
fn display_depth_ctrl_plus() {
    let mut tree = Tree::with_root(NodeParams::named("root", NodeKind::Directory));
    let root = tree.root().unwrap();
    let a = tree.add_child(root, NodeParams::named("a", NodeKind::Directory));
    let b = tree.add_child(a, NodeParams::named("b", NodeKind::Directory));
    tree.add_child(
        b,
        NodeParams::named("deep.bin", NodeKind::File).sizes(1000, 1000),
    );
    let mut app = app_with(tree, root);

    assert_eq!(app.view().unwrap().display_depth, 1);
    assert!(shows_children(app.view().unwrap(), a, 0)); // one preview level
    assert!(
        !shows_children(app.view().unwrap(), b, 1),
        "beyond the depth limit"
    );
    press_key(&mut app, Held::Ctrl, Key::Plus);
    assert_eq!(app.view().unwrap().display_depth, 2);
    assert!(shows_children(app.view().unwrap(), b, 1));
    press_key(&mut app, Held::Ctrl, Key::Minus);
    assert!(!shows_children(app.view().unwrap(), b, 1));
}

#[test]
fn snapshot_save_load_cycle() {
    let mut app = filter_app();
    type_filter(&mut app, "*.jpg");
    let pics = find_node(app.view().unwrap(), "pics");
    view_of(&mut app).navigate_to(pics);
    let mut bytes = Vec::new();
    save_snapshot(app.view().unwrap(), "1", 0, &mut bytes).unwrap();

    // Load into a fresh app: read-only view, filter + zoom restored.
    let view = load_snapshot(&bytes, "v.rssnap")
        .ok()
        .unwrap();
    let mut other = RssApp::with_config(Config::default());
    other.attach_snapshot(view);
    let view = other.view().expect("snapshot view loaded");
    assert_eq!(view.snapshot_source.as_deref(), Some("v.rssnap"));
    assert!(!other.is_scanning());
    assert_eq!(view.filter_text, "*.jpg");
    assert_eq!(view.tree().node(view.zoom).name, "pics", "zoom path restored");
}

#[test]
fn start_dialog_snapshots_tab_loads() {
    let mut dialog = StartDialog::new();
    assert!(dialog.submit_snapshot().is_none());
    assert_eq!(dialog.error.as_deref(), Some("enter a snapshot path"));
    dialog.edited();
    assert_eq!(dialog.error, None);
    dialog.snapshot_path = " /x/view.rssnap ".to_string();
    assert_eq!(dialog.submit_snapshot().as_deref(), Some("/x/view.rssnap"));
}

#[test]
fn delete_dialog_content_and_execution() {
    let mut app = filter_app();
    type_filter(&mut app, "*.nothing-matches");
    let a_jpg = find_node(app.view().unwrap(), "a.jpg");
    assert!(matches!(
        app.dispatch(0, TreemapCmd::Delete(a_jpg)),
        CmdEffect::Nothing
    ));
    let dialog = app.delete_dialog.as_mut().unwrap();
    let lines = dialog.lines();
    let has = |part: &str| lines.iter().any(|l| l.contains(part));
    assert!(has("a.jpg"));
    assert!(has("Total:"));
    assert!(has("An active filter hides part of the contents"));

    dialog.start();
    dialog.take(DeleteMsg::Freed(100));
    assert!(!dialog.is_done());
    dialog.take(DeleteMsg::Done(Ok(())));
    assert!(dialog.is_done());
    assert!(dialog.lines().iter().any(|l| l.contains("Done.")));
    // What held it is scanned anew, once.
    let target = dialog.take_rescan(&app.entries[0].view);
    assert_eq!(target.as_deref(), Some("root"));
    let again = app
        .delete_dialog
        .as_mut()
        .unwrap()
        .take_rescan(&app.entries[0].view);
    assert_eq!(again, None);
}

#[test]
fn deletions_state_the_true_total() {
    let app = filter_app();
    let view = app.view().unwrap();
    let dialog = delete_plan_for(view, view.root);
    assert_eq!(dialog.item.total_bytes, 600);
    assert!(!dialog.item.filter_hidden);
}

#[test]
fn theme_switch_recolors_views_instantly() {
    let mut app = filter_app();
    app.apply_theme(Some(true));
    let dark_file = app.view().unwrap().flat_colors.file;
    app.set_theme(ThemeSetting::Light);
    app.apply_theme(Some(true));
    let light_file = app.view().unwrap().flat_colors.file;
    assert_ne!(dark_file, light_file, "palette switched without a restart");
    app.set_theme(ThemeSetting::Dark);
    app.apply_theme(Some(true));
    assert_eq!(app.view().unwrap().flat_colors.file, dark_file);
    // And back to following the system.
    app.set_theme(ThemeSetting::System);
    app.apply_theme(Some(true));
    assert_eq!(app.view().unwrap().flat_colors.file, dark_file);
    app.apply_theme(Some(false));
    assert_eq!(app.view().unwrap().flat_colors.file, light_file);
}

#[test]
fn settings_dialog_persists_theme() {
    let mut app = RssApp::with_config(Config::default());
    app.set_theme(ThemeSetting::Light);
    let text = app.config.to_toml();
    assert!(text.contains("theme = \"light\""), "persisted: {text}");
    assert_eq!(Config::parse(&text).ok().unwrap().theme, ThemeSetting::Light);
    app.config_saved(false);
    assert_eq!(
        app.notice.as_deref(),
        Some("settings are not saved (no writable config location)")
    );
}

#[test]
fn log_console_lists_scan_problems() {
    let (tree, root) = filter_tree();
    let mut app = RssApp::with_config(Config::default());
    let summary = ScanSummary {
        errors: vec![ScanProblem {
            path: Some("root/locked".to_string()),
            message: "denied".to_string(),
        }],
        ..Default::default()
    };
    app.attach_tree(tree, root, "root".to_string(), summary);
    assert_eq!(log_lines(&app.entries[0]), ["root/locked: denied"]);
    assert!(status(&app.entries[0], None, &None)
        .iter()
        .any(|l| l == "1 scan problem(s)"));
}

#[test]
fn dropped_files_are_told_apart() {
    let dropped = vec![
        "/a".to_string(),
        "/b/view.rssnap".to_string(),
        "/c".to_string(),
    ];
    let (snapshots, folders) = sort_dropped(&dropped);
    assert_eq!(folders, ["/a", "/c"]);
    assert_eq!(snapshots, ["/b/view.rssnap"]);
    assert_eq!(dropped_snapshot(&dropped).as_deref(), Some("/b/view.rssnap"));
}

#[test]
fn subtree_scans_join_the_tree_again() {
    let event = Upsert {
        parent_path: None,
        path: "root/pics".to_string(),
        params: NodeParams::named("root/pics", NodeKind::Directory),
    };
    let joined = regraft(event, "root/pics");
    assert_eq!(joined.parent_path.as_deref(), Some("root"));
    assert_eq!(joined.params.name, "pics");
}

#[test]
fn failed_scans_are_told() {
    let mut app = RssApp::with_config(Config::default());
    let idx = app.open_scan();
    app.scan_started(idx, "/x".to_string(), true);
    match app.entries[0].take(ScanMsg::Finished(Err("gone".to_string()))) {
        Told::Notice(n) => assert_eq!(n, "scan failed: gone"),
        _ => panic!("a notice"),
    }
    assert!(!app.is_scanning());
}

/// An app that scanned `root/` with `big.bin` (100 KiB), `small.bin` (1 KiB) and
/// `sub/` holding `nested.bin` (10 KiB).
fn scanned_app() -> RssApp {
    let mut app = RssApp::with_config(Config::default());
    let idx = app.open_scan();
    app.scan_started(idx, "/t/root".to_string(), true);
    let file = |name: &str, len: u64| {
        NodeParams::named(name, NodeKind::File).sizes(len, len.next_multiple_of(4096))
    };
    let dir = |name: &str| NodeParams::named(name, NodeKind::Directory);
    let events = vec![
        upsert(None, "/t/root", dir("/t/root")),
        upsert(Some("/t/root"), "/t/root/big.bin", file("big.bin", 100 * 1024)),
        upsert(Some("/t/root"), "/t/root/small.bin", file("small.bin", 1024)),
        upsert(Some("/t/root"), "/t/root/sub", dir("sub")),
        upsert(
            Some("/t/root/sub"),
            "/t/root/sub/nested.bin",
            file("nested.bin", 10 * 1024),
        ),
    ];
    for event in events {
        app.entries[idx].take(ScanMsg::Event(event));
    }
    app.entries[idx].take(ScanMsg::Finished(Ok(ScanSummary::default())));
    app
}

#[test]
fn scan_populates_treemap() {
    let app = scanned_app();
    let view = app.view().unwrap();
    let cells = shown(view, view.root);
    assert!(cells.contains(&"big.bin".to_string()));
    assert!(cells.contains(&"sub".to_string()));
    // The grandchild is shown inside `sub`.
    let sub = find_node(view, "sub");
    assert!(shows_children(view, sub, 0));
    assert_eq!(shown(view, sub), ["nested.bin"]);

    let root_node = view.tree().node(view.root);
    assert_eq!(root_node.agg_files, 3);
    assert_eq!(root_node.agg_dirs, 2);
    assert!(root_node.agg_allocated >= root_node.agg_logical);
    let pieces = status(&app.entries[0], None, &None);
    assert!(pieces[0].contains("3 files, 2 dirs"));
}

#[test]
fn watcher_events_update_tree() {
    let mut app = scanned_app();
    view_of(&mut app).update_flashes(0);
    view_of(&mut app).update_flashes(1_000_000);

    // Something new is put in, and flashes.
    let new_file = "/t/root/sub/watched.bin".to_string();
    let found = NodeParams::named("watched.bin", NodeKind::File).sizes(4096, 4096);
    let r = app.inject_watch_event(&WatchEvent::Upsert(new_file.clone()), Some(found));
    assert_eq!(r, WatchOutcome::Applied);
    let view = app.view_mut().unwrap();
    view.update_flashes(2_000_000);
    let id = view.find_by_path(&new_file).expect("upserted node");
    assert!(view.flash_alpha(id, 2_000_000).is_some(), "new cell flashes");
    let sub = find_node(view, "sub");
    assert!(shown(view, sub).contains(&"watched.bin".to_string()));

    // With flashing switched off further changes do not flash.
    press(&mut app.entries[0], Button::Flash);
    assert_eq!(toolbar(&app.entries[0]).flash_label, "Flash: off");
    let other = "/t/root/sub/watched2.bin".to_string();
    let found = NodeParams::named("watched2.bin", NodeKind::File).sizes(1024, 4096);
    app.inject_watch_event(&WatchEvent::Upsert(other.clone()), Some(found));
    let view = app.view_mut().unwrap();
    view.update_flashes(3_000_000);
    let id2 = view.find_by_path(&other).expect("upserted node");
    assert!(view.flash_alpha(id2, 3_000_000).is_none(), "flash disabled");
    press(&mut app.entries[0], Button::Flash);
    assert_eq!(toolbar(&app.entries[0]).flash_label, "Flash: on");

    // What is gone leaves the tree.
    let r = app.inject_watch_event(&WatchEvent::Remove(new_file.clone()), None);
    assert_eq!(r, WatchOutcome::Applied);
    assert!(app.view().unwrap().find_by_path(&new_file).is_none());

    // A directory that changed as a whole is scanned anew.
    let sub2 = "/t/root/sub2".to_string();
    let r = app.inject_watch_event(&WatchEvent::SubtreeDirty(sub2.clone()), None);
    assert_eq!(r, WatchOutcome::RescanSubtree(sub2.clone()));
    app.entries[0].prepare_subtree_scan(&sub2);
    let deep = Upsert {
        parent_path: Some(sub2.clone()),
        path: "/t/root/sub2/deep.bin".to_string(),
        params: NodeParams::named("deep.bin", NodeKind::File).sizes(512, 4096),
    };
    let top = Upsert {
        parent_path: None,
        path: sub2.clone(),
        params: NodeParams::named("/t/root/sub2", NodeKind::Directory),
    };
    for event in vec![top, deep] {
        let event = ScanEvent::Upsert(regraft(event, &sub2));
        app.entries[0].take(ScanMsg::Event(event));
    }
    let view = app.view().unwrap();
    assert!(view.find_by_path("/t/root/sub2/deep.bin").is_some());
    assert!(shown(view, view.root).contains(&"sub2".to_string()));
}

#[test]
fn export_menu_lists_templates_csv_json_and_snapshot() {
    let labels: Vec<String> = vec![
        ExportKind::Template(0),
        ExportKind::Template(1),
        ExportKind::Csv,
        ExportKind::Json,
    ]
    .iter()
    .map(|kind| kind.label())
    .collect();
    assert_eq!(labels[0], "Template: Grouped by folder");
    assert_eq!(labels[1], "Template: Plain list");
    assert_eq!(labels[2], "CSV");
    assert_eq!(labels[3], "JSON");
    assert!(toolbar(&scanned_app().entries[0]).can_export);
}

#[test]
fn exports_of_the_first_view_tell_what_failed() {
    let mut app = RssApp::with_config(Config::default());
    let mut out = Vec::new();
    let kind = ExportKind::Csv;
    assert!(app.export_root_view(&kind, now(), &mut out).unwrap().is_none());
    assert!(app.save_root_snapshot("v", 0, &mut out).is_ok());
    assert!(out.is_empty());
    assert_eq!(app.notice, None);

    // A view without nodes has nothing to export.
    app.open_scan();
    assert!(app.export_root_view(&kind, now(), &mut out).is_err());
    assert_eq!(
        app.notice.as_deref(),
        Some("export failed: invalid root node id 0")
    );
    assert!(out.is_empty());

    let mut app = filter_app();
    assert!(app.export_root_view(&kind, now(), &mut out).is_ok());
    assert!(out.ends_with(b"\r\n"));
    let mut bytes = Vec::new();
    app.save_root_snapshot("v", 5_000, &mut bytes).unwrap();
    assert_eq!(load_snapshot(&bytes, "x.rssnap").unwrap().tree().len(), 5);
    assert_eq!(app.notice, None);
}

#[test]
fn other_settings_color_anew() {
    let mut app = filter_app();
    app.apply_theme(Some(true));
    assert_eq!(app.applied_dark, Some(true));
    let config = Config {
        theme: ThemeSetting::Light,
        ..Config::default()
    };
    app.config_for_test(config);
    assert_eq!(app.applied_dark, None);
    app.apply_theme(Some(true));
    assert_eq!(app.applied_dark, Some(false));
}

#[test]
fn snapshots_are_not_scanned_anew() {
    let mut app = filter_app();
    let pics = find_node(app.view().unwrap(), "pics");
    assert_eq!(app.entries[0].rescan_path().as_deref(), Some("root"));
    assert!(matches!(
        press_key(&mut app, Held::Ctrl, Key::F5),
        KeyEffect::RescanSubtree(_)
    ));
    let mut dialog = delete_plan_for(app.view().unwrap(), pics);
    dialog.start();
    dialog.take(DeleteMsg::Done(Ok(())));

    view_of(&mut app).snapshot_source = Some("v.rssnap".to_string());
    assert!(app.view().unwrap().from_snapshot());
    assert_eq!(app.entries[0].rescan_path(), None);
    assert!(matches!(
        press_key(&mut app, Held::Ctrl, Key::F5),
        KeyEffect::Nothing
    ));
    assert_eq!(dialog.take_rescan(app.view().unwrap()), None);
    view_of(&mut app).snapshot_source = None;
    assert_eq!(
        dialog.take_rescan(app.view().unwrap()).as_deref(),
        Some("root")
    );
}

#[test]
fn only_the_first_scan_is_cancelled() {
    let mut app = RssApp::with_config(Config::default());
    app.cancel_scan();
    assert_eq!(app.view_count(), 0);
    for path in ["/a", "/b"] {
        let idx = app.open_scan();
        app.scan_started(idx, path.to_string(), true);
    }
    app.cancel_scan();
    assert!(app.entries[0].scan.unwrap().cancel);
    assert!(!app.entries[1].scan.unwrap().cancel);
}
