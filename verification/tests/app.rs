//! The command line, the settings, the defaults and what is made of a view.
use rss::cli::{describe_counts, describe_problems, describe_sizes, output_file};
use rss::cli_meta::{is_meta_form, parse, plan, Action, Cmd, Plan, Session, HELP};
use rss::config::{config_candidates, Config, ConfigError, ThemeSetting};
use rss::defaults::file_class_styles;
use rss::diskspace::{disk_space, is_volume_root, list_drives};
use rss::node::{NodeKind, NodeParams, Tag};
use rss::scan::{ScanProblem, ScanSummary};
use rss::sizes::format_bytes;
use rss::snapshot::Snapshot;
use rss::snapshot_format::SnapshotError;
use rss::time::{filetime_from_unix, format_filetime};
use rss::tree::Tree;
use rss::view::ScanView;
use rss::view_export::{export_view, load_snapshot, save_snapshot, ExportKind};

fn args(s: &str) -> Vec<String> {
    s.split_whitespace().map(String::from).collect()
}

#[test]
fn meta_form_detection() {
    assert!(is_meta_form(&args("load view.rssnap")));
    assert!(is_meta_form(&args(
        "scan c:\\ filter *.jpg export G out.txt"
    )));
    assert!(is_meta_form(&args("help")));
    // Dashed flags, no bare keywords.
    assert!(!is_meta_form(&args("scan /tmp --export csv out.csv")));
    assert!(!is_meta_form(&args("scan /tmp --export csv")));
    assert!(!is_meta_form(&args("scan /tmp")));
    assert!(!is_meta_form(&args("--headless")));
}

#[test]
fn parse_errors_are_usage_errors() {
    assert!(parse(&args("scan")).is_err());
    assert!(parse(&args("export name out")).is_ok()); // binds at exec time
    assert!(parse(&args("bogus")).is_err());
    assert!(parse(&args("scan /tmp export name")).is_err()); // missing dest
}

#[test]
fn bytes_formatting() {
    assert_eq!(format_bytes(0), "0 B");
    assert_eq!(format_bytes(512), "512 B");
    assert_eq!(format_bytes(2048), "2.0 KiB");
    assert_eq!(format_bytes(3 * 1024 * 1024), "3.0 MiB");
}

#[test]
fn filetime_formatting() {
    // 1970-01-01 00:00:00 UTC.
    assert_eq!(
        format_filetime(filetime_from_unix(0)),
        "1970-01-01 00:00:00 UTC"
    );
    // 2000-02-29 12:34:56 UTC = 951827696 (leap day exercises the civil math).
    assert_eq!(
        format_filetime(filetime_from_unix(951_827_696)),
        "2000-02-29 12:34:56 UTC"
    );
    // Unknown timestamps render as a dash.
    assert_eq!(format_filetime(0), "—");
}

#[test]
fn chains_of_commands_are_carried_out_in_order() {
    let line = "scan /tmp filter *.bin export Plain save out.rssnap autoclose";
    let words = args(line);
    assert!(matches!(plan(&words), Plan::Usage(_)), "export wants two words");
    let mut words = args("scan /tmp filter *.bin export");
    words.push("Plain list".to_string());
    words.push("out.txt".to_string());
    words.push("autoclose".to_string());
    let cmds = match plan(&words) {
        Plan::Run(cmds) => cmds,
        _ => panic!("a chain of commands"),
    };
    assert_eq!(
        cmds,
        vec![
            Cmd::Scan("/tmp".to_string()),
            Cmd::Filter("*.bin".to_string()),
            Cmd::Export {
                config: "Plain list".to_string(),
                dest: "out.txt".to_string()
            },
            Cmd::Autoclose,
        ]
    );

    let mut session = Session::new();
    assert!(
        session.step(&cmds[1]).is_err(),
        "there is nothing to filter yet"
    );
    assert!(matches!(session.step(&cmds[0]), Ok(Action::Scan(p)) if p == "/tmp"));
    let mut tree = Tree::with_root(NodeParams::named("/tmp", NodeKind::Directory));
    let root = tree.root().unwrap();
    tree.add_child(
        root,
        NodeParams::named("f.bin", NodeKind::File).sizes(10, 4096),
    );
    session.scanned(tree).unwrap();
    match session.step(&cmds[1]).unwrap() {
        Action::Warn(lines) => assert!(lines.is_empty()),
        _ => panic!("filters may warn"),
    }
    match session.step(&cmds[2]).unwrap() {
        Action::Export { template, dest } => {
            assert_eq!(template.name, "Plain list");
            assert_eq!(dest, "out.txt");
            let mut out = Vec::new();
            session
                .subject
                .as_ref()
                .unwrap()
                .render(&template, filetime_from_unix(0), &mut out)
                .unwrap();
            let text = String::from_utf8(out).unwrap();
            assert!(text.contains("# filter: *.bin"));
            assert!(text.contains("f.bin"));
        }
        _ => panic!("an export"),
    }
    // Names of templates are told apart by case.
    let wrong = Cmd::Export {
        config: "plain list".to_string(),
        dest: "out.txt".to_string(),
    };
    assert!(session.step(&wrong).is_err());
}

#[test]
fn help_prints_the_help() {
    assert!(matches!(plan(&args("help")), Plan::Help));
    assert!(matches!(plan(&args("--headless help")), Plan::Help));
    assert!(HELP.starts_with("RustySpaceSniffer command line"));
}

#[test]
fn a_saved_subject_can_be_loaded() {
    let mut session = Session::new();
    session
        .scanned(Tree::with_root(NodeParams::named(
            "r",
            NodeKind::Directory,
        )))
        .unwrap();
    session.step(&Cmd::Filter(">1kb".to_string())).unwrap();
    let mut bytes = Vec::new();
    session
        .subject
        .as_ref()
        .unwrap()
        .save("1.0", &mut bytes)
        .unwrap();
    let mut other = Session::new();
    other.loaded(&bytes).unwrap();
    assert_eq!(other.subject.as_ref().unwrap().filter, ">1kb");
    assert!(other.loaded(&bytes[..10]).is_err());
}

#[test]
fn summaries_in_words() {
    let summary = ScanSummary {
        entries: 12,
        files: 9,
        dirs: 2,
        unaccessible: 1,
        logical_size: 2048,
        allocated_size: 4096,
        errors: vec![
            ScanProblem {
                path: Some("/x".to_string()),
                message: "denied".to_string(),
            },
            ScanProblem {
                path: None,
                message: "raced".to_string(),
            },
        ],
        ..Default::default()
    };
    assert_eq!(
        describe_counts(&summary),
        "12 entries (9 files, 2 dirs, 1 unaccessible)"
    );
    assert_eq!(describe_sizes(&summary, true), "2.0 KiB logical total");
    assert_eq!(
        describe_sizes(&summary, false),
        "4.0 KiB allocated / 2.0 KiB logical total"
    );
    assert_eq!(describe_problems(&summary), ["/x: denied", "raced"]);
    assert_eq!(
        output_file(None, Some("a".to_string())).as_deref(),
        Some("a")
    );
    assert_eq!(
        output_file(Some("b".to_string()), Some("a".to_string())).as_deref(),
        Some("b")
    );
}

#[test]
fn round_trip_preserves_known_and_unknown_keys() {
    let mut config = Config {
        theme: ThemeSetting::Dark,
        flash_enabled: Some(false),
        zoom_anim_ms: Some(250),
        display_depth: Some(3),
        color_style: Some("classes".to_string()),
        filter_history: vec!["*.jpg".to_string()],
        window_size: Some((toml::Value::Float(1024.0), toml::Value::Float(768.0))),
        watch_enabled: Some(false),
        extra: toml::Table::new(),
    };
    config.extra.insert(
        "future_feature".to_string(),
        toml::Value::String("keepme".to_string()),
    );
    let text = config.to_toml();
    let parsed = Config::parse(&text).ok().unwrap();
    assert_eq!(parsed.theme, ThemeSetting::Dark);
    assert_eq!(parsed.flash_enabled, Some(false));
    assert_eq!(parsed.zoom_anim_ms, Some(250));
    assert_eq!(parsed.display_depth, Some(3));
    assert_eq!(parsed.color_style.as_deref(), Some("classes"));
    assert_eq!(parsed.filter_history, vec!["*.jpg"]);
    assert_eq!(
        parsed.window_size,
        Some((toml::Value::Float(1024.0), toml::Value::Float(768.0)))
    );
    assert_eq!(parsed.watch_enabled, Some(false));
    // Unknown keys survive the round-trip.
    assert_eq!(
        parsed.extra.get("future_feature").and_then(|v| v.as_str()),
        Some("keepme")
    );
}

#[test]
fn settings_of_the_wrong_kind_count_as_missing() {
    let text = "theme = \"DARK\"\nflash_enabled = 1\nzoom_anim_ms = -5\nwindow_size = [1.0]\n";
    let config = Config::parse(text).ok().unwrap();
    assert_eq!(config.theme, ThemeSetting::Dark);
    assert_eq!(config.flash_enabled, None);
    assert_eq!(config.zoom_anim_ms, None);
    assert_eq!(config.window_size, None);
    assert_eq!(
        Config::parse("theme = ").err(),
        Some(ConfigError::NotToml)
    );
    assert_eq!(ThemeSetting::parse("none"), None);
    assert_eq!(ThemeSetting::default().label(), "System");
}

#[test]
fn settings_are_looked_for_in_order() {
    assert_eq!(
        config_candidates(Some("/opt/rss"), None, Some("/home/u")),
        [
            "/opt/rss/RustySpaceSniffer.toml",
            "/home/u/.config/rustyspacesniffer/config.toml"
        ]
    );
    assert_eq!(
        config_candidates(None, Some("/cfg"), Some("/home/u")),
        ["/cfg/rustyspacesniffer/config.toml"]
    );
    assert!(config_candidates(None, None, None).is_empty());
}

#[test]
fn default_classes_have_unique_names_and_extensions() {
    let styles = file_class_styles();
    assert!(!styles.is_empty());
    let mut names: Vec<&str> = styles.iter().map(|s| s.class.name.as_str()).collect();
    names.sort_unstable();
    names.dedup();
    assert_eq!(names.len(), styles.len(), "duplicate class names");
    for style in &styles {
        assert!(!style.class.extensions.is_empty());
        for ext in &style.class.extensions {
            assert_eq!(*ext, ext.to_lowercase(), "extensions are normalized");
        }
    }
}

#[test]
fn disk_space_of_tmp() {
    let path = std::path::Path::new("/tmp");
    let space = disk_space(
        fs2::total_space(path).ok(),
        fs2::available_space(path).ok(),
    )
    .expect("/tmp has a volume");
    assert!(space.total > 0);
    assert!(space.free <= space.total);
    assert!(disk_space(Some(0), Some(0)).is_none());
    assert!(disk_space(None, Some(1)).is_none());
}

#[test]
fn volume_root_detection_unix() {
    assert!(is_volume_root("/"));
    assert!(!is_volume_root("/tmp"));
    assert!(!is_volume_root("/home/user"));
}

#[test]
fn drives_are_listed_by_letter() {
    let mut found = vec![false; 26];
    found[2] = true;
    found[25] = true;
    assert_eq!(list_drives(&found), [r"C:\", r"Z:\"]);
}

fn sample_view() -> ScanView {
    let mut tree = Tree::with_root(NodeParams::named("/r", NodeKind::Directory));
    let root = tree.root().unwrap();
    let mut tagged = NodeParams::named("f.bin", NodeKind::File).sizes(64, 4096);
    tagged.tag = Some(Tag::Red);
    tree.add_child(root, tagged);
    let d = tree.add_child(root, NodeParams::named("sub", NodeKind::Directory));
    tree.add_child(
        d,
        NodeParams::named("g.bin", NodeKind::File).sizes(32, 4096),
    );
    let mut view = ScanView::new(tree, root, "/r".to_string(), ScanSummary::default());
    view.filter_text = "*.bin".to_string();
    view
}

#[test]
fn template_export_states_view_and_filter() {
    let view = sample_view();
    let mut out = Vec::new();
    export_view(&view, &ExportKind::Template(0), 0, &mut out).unwrap();
    let text = String::from_utf8(out).unwrap();
    assert!(text.contains("Grouped by folder"));
    assert!(text.contains("# filter: *.bin"));
    assert!(text.contains("f.bin"));
}

#[test]
fn csv_and_json_export_still_work() {
    let view = sample_view();
    let mut out = Vec::new();
    export_view(&view, &ExportKind::Csv, 0, &mut out).unwrap();
    assert!(String::from_utf8(out).unwrap().contains("f.bin"));
    let mut out = Vec::new();
    let doc = export_view(&view, &ExportKind::Json, 0, &mut out)
        .unwrap()
        .unwrap();
    assert!(doc.children.iter().any(|c| c.name == "f.bin"));
}

/// A snapshot carries tree, tags, filter and zoom path.
#[test]
fn snapshot_round_trip_preserves_view_state() {
    let mut view = sample_view();
    let sub = view.find_by_path("/r/sub").unwrap();
    view.navigate_to(sub);

    let mut bytes = Vec::new();
    save_snapshot(&view, "0.1.0-test", 1_700_000_000_000, &mut bytes).unwrap();
    let snapshot = Snapshot::decode(&bytes).unwrap();
    assert_eq!(snapshot.filter, "*.bin");
    assert_eq!(snapshot.zoom_path, vec!["sub"]);
    // Tags survive.
    let f = snapshot
        .tree
        .children(snapshot.tree.root().unwrap())
        .collect()
        .into_iter()
        .find(|&c| snapshot.tree.node(c).name == "f.bin")
        .unwrap();
    assert_eq!(snapshot.tree.node(f).tag, Some(Tag::Red));
}

#[test]
fn load_snapshot_builds_read_only_view() {
    let view = sample_view();
    let mut bytes = Vec::new();
    save_snapshot(&view, "0.1.0-test", 1_700_000_000_000, &mut bytes).unwrap();

    let loaded = load_snapshot(&bytes, "/tmp/view.rssnap").ok().unwrap();
    assert_eq!(loaded.filter_text, "*.bin");
    assert_eq!(loaded.snapshot_source.as_deref(), Some("/tmp/view.rssnap"));
    assert!(!loaded.scanning, "snapshots have no live link");
    assert_eq!(loaded.tree().len(), view.tree().len());
    assert_eq!(
        load_snapshot(&bytes[..9], "x").err(),
        Some(SnapshotError::TooShort { len: 9, need: 36 })
    );
}

#[test]
fn kinds_of_export_have_labels_and_extensions() {
    assert_eq!(
        ExportKind::Template(0).label(),
        "Template: Grouped by folder"
    );
    assert_eq!(ExportKind::Template(9).label(), "Template");
    assert_eq!(ExportKind::Csv.label(), "CSV");
    assert_eq!(ExportKind::Json.extension(), "json");
}
