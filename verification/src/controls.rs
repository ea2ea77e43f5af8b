//! The controls around a view: what they show, and what they do.
use vstd::prelude::*;
use vstd::string::*;

use crate::cli;
use crate::entry::{RunningScan, ViewEntry};
use crate::export::SizeMode;
use crate::filter_ast::WarningView;
use crate::filter_parse;
use crate::node::Tag;
use crate::scan;
use crate::sizes;
use crate::text;
use crate::view;
use crate::view::{ColorStyle, ScanView};
use crate::NodeId;

verus! {

/// What the toolbar of a view shows.
pub struct Toolbar {
    pub can_back: bool,
    pub can_forward: bool,
    pub can_up: bool,
    pub can_root: bool,
    pub can_rescan: bool,
    /// Whether the scan can be paused and cancelled.
    pub scanning: bool,
    pub pause_label: &'static str,
    pub can_export: bool,
    /// What is wrong with the filter.
    pub warnings: Vec<String>,
    pub hide_label: &'static str,
    pub can_hide: bool,
    pub color_label: &'static str,
    pub size_label: &'static str,
    pub depth: u32,
    pub flash_label: &'static str,
}

/// A warning with the text that it is about.
pub open spec fn warning_text(filter: Seq<char>, w: WarningView) -> Seq<char> {
    "`"@ + text::byte_slice(filter, w.span.start as nat, w.span.end as nat) + "`: "@ + w.message
}

/// The warnings of a view.
pub open spec fn warning_texts(v: &ScanView) -> Seq<Seq<char>> {
    match v.filter_cache {
        None => Seq::empty(),
        Some((_, f)) => Seq::new(
            f@.warnings.len(),
            |i: int| warning_text(v.filter_text@, f@.warnings[i]),
        ),
    }
}

/// The warnings of a view.
pub fn filter_notes(v: &ScanView) -> (r: Vec<String>)
    ensures
        text::texts(r@) == warning_texts(v),
{
    let ws = v.filter_warnings();
    let ghost views = filter_parse::warning_views(ws@);
    let mut r: Vec<String> = Vec::new();
    for i in 0..ws.len()
        invariant
            views == filter_parse::warning_views(ws@),
            r@.len() == i,
            forall|j: int|
                0 <= j < i ==> (#[trigger] r@[j])@ == warning_text(v.filter_text@, views[j]),
    {
        let mut line = "`".to_owned();
        let excerpt = text::slice_bytes(
            v.filter_text.as_str(),
            ws[i].span.start,
            ws[i].span.end,
        );
        line.append(excerpt.as_str());
        line.append("`: ");
        line.append(ws[i].message.as_str());
        proof {
            assert(views[i as int] == ws@[i as int]@);
        }
        r.push(line);
    }
    proof {
        let goal = warning_texts(v);
        assert(ws@.len() == views.len());
        assert(goal.len() == views.len());
        assert forall|i: int| 0 <= i < goal.len() implies #[trigger] text::texts(r@)[i]
            == goal[i] by {
            assert(r@[i]@ == warning_text(v.filter_text@, views[i]));
        }
        assert(text::texts(r@) =~= goal);
    }
    r
}

/// What the toolbar of a view shows.
pub fn toolbar(e: &ViewEntry) -> (t: Toolbar)
    requires
        e.view.wf(),
    ensures
        ({
            let v = e.view;
            let has_root = v.state().root is Some;
            &&& t.can_back == (v.back@.len() > 0)
            &&& t.can_forward == (v.forward@.len() > 0)
            &&& t.can_up == (has_root && v.zoom != v.root)
            &&& t.can_root == (t.can_back || t.can_up)
            &&& t.can_rescan == (e.ever_scanned && e.scan is None)
            &&& t.scanning == (e.scan is Some)
            &&& t.pause_label@ == if e.paused() {
                "Resume"@
            } else {
                "Pause"@
            }
            &&& t.can_export == has_root
            &&& text::texts(t.warnings@) == warning_texts(&v)
            &&& t.hide_label@ == if v.hard_hide_filtered {
                "Filtered: hide"@
            } else {
                "Filtered: dim"@
            }
            &&& t.can_hide == v.filters()
            &&& t.color_label@ == match v.color_style {
                ColorStyle::Flat => "Colors: flat"@,
                ColorStyle::FileClasses => "Colors: classes"@,
            }
            &&& t.size_label@ == match v.size_mode {
                SizeMode::Allocated => "Size: on-disk"@,
                SizeMode::Logical => "Size: logical"@,
            }
            &&& t.depth == v.display_depth
            &&& t.flash_label@ == if v.flash_enabled {
                "Flash: on"@
            } else {
                "Flash: off"@
            }
        }),
{
    let v = &e.view;
    let has_root = v.has_root();
    let can_back = v.can_go_back();
    let can_up = has_root && v.zoom != v.root;
    Toolbar {
        can_back,
        can_forward: v.can_go_forward(),
        can_up,
        can_root: can_back || can_up,
        can_rescan: e.ever_scanned && e.scan.is_none(),
        scanning: e.scan.is_some(),
        pause_label: if e.is_paused() {
            "Resume"
        } else {
            "Pause"
        },
        can_export: has_root,
        warnings: filter_notes(v),
        hide_label: if v.hard_hide_filtered {
            "Filtered: hide"
        } else {
            "Filtered: dim"
        },
        can_hide: v.has_active_filter(),
        color_label: match v.color_style {
            ColorStyle::Flat => "Colors: flat",
            ColorStyle::FileClasses => "Colors: classes",
        },
        size_label: match v.size_mode {
            SizeMode::Allocated => "Size: on-disk",
            SizeMode::Logical => "Size: logical",
        },
        depth: v.display_depth,
        flash_label: if v.flash_enabled {
            "Flash: on"
        } else {
            "Flash: off"
        },
    }
}

/// A button of the toolbar that acts on the view alone.
#[derive(Clone, Copy, PartialEq, Eq, Debug, Structural)]
pub enum Button {
    Back,
    Forward,
    Up,
    Root,
    /// Pause the scan, or let it go on.
    Pause,
    Cancel,
    Hide,
    Colors,
    Size,
    Shallower,
    Deeper,
    Flash,
}

/// Whether the counters of a view leave room for a press.
pub open spec fn pressable(v: &ScanView) -> bool {
    v.layout_epoch < u64::MAX && v.display_depth < i32::MAX
}

/// Whether `new` is a view after the press of a button.
pub open spec fn pressed(v: &ScanView, new: &ScanView, b: Button) -> bool {
    match b {
        Button::Back => view::went_back(v, new),
        Button::Forward => view::went_forward(v, new),
        Button::Up => if v.state().root is None {
            *new == *v
        } else {
            match v.above() {
                None => *new == *v,
                Some(up) => view::navigated(v, new, up, view::AnimKind::FromNode(v.zoom)),
            }
        },
        Button::Root => if v.state().root is None {
            *new == *v
        } else {
            view::navigated(v, new, v.root, view::AnimKind::FromNode(v.zoom))
        },
        Button::Pause | Button::Cancel => *new == *v,
        Button::Hide => *new == (ScanView {
            hard_hide_filtered: !v.hard_hide_filtered,
            layout_epoch: (v.layout_epoch + 1) as u64,
            ..*v
        }),
        Button::Colors => *new == (ScanView {
            color_style: match v.color_style {
                ColorStyle::Flat => ColorStyle::FileClasses,
                ColorStyle::FileClasses => ColorStyle::Flat,
            },
            ..*v
        }),
        Button::Size => *new == (ScanView {
            size_mode: match v.size_mode {
                SizeMode::Allocated => SizeMode::Logical,
                SizeMode::Logical => SizeMode::Allocated,
            },
            layout_epoch: (v.layout_epoch + 1) as u64,
            ..*v
        }),
        Button::Shallower => *new == (ScanView {
            display_depth: view::depth_within(v.display_depth - 1),
            layout_epoch: (v.layout_epoch + 1) as u64,
            ..*v
        }),
        Button::Deeper => *new == (ScanView {
            display_depth: view::depth_within(v.display_depth + 1),
            layout_epoch: (v.layout_epoch + 1) as u64,
            ..*v
        }),
        Button::Flash => *new == (ScanView { flash_enabled: !v.flash_enabled, ..*v }),
    }
}

fn press_view(v: &mut ScanView, b: Button)
    requires
        old(v).wf(),
        pressable(old(v)),
    ensures
        final(v).wf(),
        pressed(old(v), final(v), b),
{
    match b {
        Button::Back => v.go_back(),
        Button::Forward => v.go_forward(),
        Button::Up => {
            if v.has_root() {
                v.zoom_out_one();
            }
        },
        Button::Root => {
            if v.has_root() {
                v.zoom_home();
            }
        },
        Button::Pause | Button::Cancel => {},
        Button::Hide => v.toggle_hard_hide(),
        Button::Colors => v.toggle_color_style(),
        Button::Size => v.toggle_size_mode(),
        Button::Shallower => v.adjust_display_depth(-1),
        Button::Deeper => v.adjust_display_depth(1),
        Button::Flash => {
            v.flash_enabled = !v.flash_enabled;
        },
    }
}

/// Does what a button of the toolbar stands for.
pub fn press(e: &mut ViewEntry, b: Button)
    requires
        old(e).view.wf(),
        pressable(&old(e).view),
    ensures
        final(e).view.wf(),
        pressed(&old(e).view, &final(e).view, b),
        *final(e) == (ViewEntry {
            view: final(e).view,
            scan: match (b, old(e).scan) {
                (Button::Pause, Some(s)) => Some(RunningScan { pause: !s.pause, ..s }),
                (Button::Cancel, Some(s)) => Some(RunningScan { cancel: true, ..s }),
                (_, s) => s,
            },
            ..*old(e)
        }),
{
    match b {
        Button::Pause => {
            let paused = e.is_paused();
            e.set_paused(!paused);
        },
        Button::Cancel => e.cancel(),
        _ => press_view(&mut e.view, b),
    }
}

/// A key.
#[derive(Clone, Copy, PartialEq, Eq, Debug, Structural)]
pub enum Key {
    N,
    Escape,
    Num0,
    Num1,
    Num2,
    Num3,
    Num4,
    F5,
    Backspace,
    ArrowUp,
    Home,
    T,
    F,
    U,
    Plus,
    Minus,
}

/// What is held down with a key.
#[derive(Clone, Copy, PartialEq, Eq, Debug, Structural)]
pub enum Held {
    Nothing,
    Ctrl,
    Shift,
}

/// What a key stands for.
#[derive(Clone, Copy, PartialEq, Eq, Debug, Structural)]
pub enum KeyAction {
    OpenStartDialog,
    CloseStartDialog,
    ToggleTag(Tag),
    /// Take all tags away below the zoomed node.
    ClearTags,
    Rescan,
    /// Scan the zoomed subtree anew.
    RescanZoom,
    Press(Button),
    ToggleFreeSpace,
    ToggleUnknownSpace,
}

/// What a key stands for while the start dialog is open or not, and while a text
/// field takes keys or not.
///
/// Tags can be set with Ctrl whatever takes keys. The other keys of a view, but
/// for those that scan anew, are not for it while a text field takes them.
pub open spec fn key_means(held: Held, key: Key, dialog: bool, typing: bool) -> Option<KeyAction> {
    if held == Held::Ctrl && key == Key::N {
        Some(KeyAction::OpenStartDialog)
    } else if dialog {
        if held == Held::Nothing && key == Key::Escape {
            Some(KeyAction::CloseStartDialog)
        } else {
            None
        }
    } else {
        match (held, key) {
            (Held::Ctrl, Key::Num1) => Some(KeyAction::ToggleTag(Tag::Red)),
            (Held::Ctrl, Key::Num2) => Some(KeyAction::ToggleTag(Tag::Yellow)),
            (Held::Ctrl, Key::Num3) => Some(KeyAction::ToggleTag(Tag::Green)),
            (Held::Ctrl, Key::Num4) => Some(KeyAction::ToggleTag(Tag::Blue)),
            (Held::Ctrl, Key::Num0) => Some(KeyAction::ClearTags),
            (Held::Nothing, Key::F5) => Some(KeyAction::Rescan),
            (Held::Ctrl, Key::F5) => Some(KeyAction::RescanZoom),
            _ => if typing {
                None
            } else {
                match (held, key) {
                    (Held::Nothing, Key::Num1) => Some(KeyAction::ToggleTag(Tag::Red)),
                    (Held::Nothing, Key::Num2) => Some(KeyAction::ToggleTag(Tag::Yellow)),
                    (Held::Nothing, Key::Num3) => Some(KeyAction::ToggleTag(Tag::Green)),
                    (Held::Nothing, Key::Num4) => Some(KeyAction::ToggleTag(Tag::Blue)),
                    (Held::Nothing, Key::Backspace) => Some(KeyAction::Press(Button::Back)),
                    (Held::Shift, Key::Backspace) => Some(KeyAction::Press(Button::Forward)),
                    (Held::Ctrl, Key::ArrowUp) => Some(KeyAction::Press(Button::Up)),
                    (Held::Ctrl, Key::Home) => Some(KeyAction::Press(Button::Root)),
                    (Held::Ctrl, Key::T) => Some(KeyAction::Press(Button::Colors)),
                    (Held::Ctrl, Key::F) => Some(KeyAction::ToggleFreeSpace),
                    (Held::Ctrl, Key::U) => Some(KeyAction::ToggleUnknownSpace),
                    (Held::Ctrl, Key::Plus) => Some(KeyAction::Press(Button::Deeper)),
                    (Held::Ctrl, Key::Minus) => Some(KeyAction::Press(Button::Shallower)),
                    _ => None,
                }
            },
        }
    }
}

/// What a key stands for.
pub fn key_action(held: Held, key: Key, dialog: bool, typing: bool) -> (r: Option<KeyAction>)
    ensures
        r == key_means(held, key, dialog, typing),
{
    if held == Held::Ctrl && key == Key::N {
        return Some(KeyAction::OpenStartDialog);
    }
    if dialog {
        return if held == Held::Nothing && key == Key::Escape {
            Some(KeyAction::CloseStartDialog)
        } else {
            None
        };
    }
    match (held, key) {
        (Held::Ctrl, Key::Num1) => Some(KeyAction::ToggleTag(Tag::Red)),
        (Held::Ctrl, Key::Num2) => Some(KeyAction::ToggleTag(Tag::Yellow)),
        (Held::Ctrl, Key::Num3) => Some(KeyAction::ToggleTag(Tag::Green)),
        (Held::Ctrl, Key::Num4) => Some(KeyAction::ToggleTag(Tag::Blue)),
        (Held::Ctrl, Key::Num0) => Some(KeyAction::ClearTags),
        (Held::Nothing, Key::F5) => Some(KeyAction::Rescan),
        (Held::Ctrl, Key::F5) => Some(KeyAction::RescanZoom),
        _ => {
            if typing {
                return None;
            }
            match (held, key) {
                (Held::Nothing, Key::Num1) => Some(KeyAction::ToggleTag(Tag::Red)),
                (Held::Nothing, Key::Num2) => Some(KeyAction::ToggleTag(Tag::Yellow)),
                (Held::Nothing, Key::Num3) => Some(KeyAction::ToggleTag(Tag::Green)),
                (Held::Nothing, Key::Num4) => Some(KeyAction::ToggleTag(Tag::Blue)),
                (Held::Nothing, Key::Backspace) => Some(KeyAction::Press(Button::Back)),
                (Held::Shift, Key::Backspace) => Some(KeyAction::Press(Button::Forward)),
                (Held::Ctrl, Key::ArrowUp) => Some(KeyAction::Press(Button::Up)),
                (Held::Ctrl, Key::Home) => Some(KeyAction::Press(Button::Root)),
                (Held::Ctrl, Key::T) => Some(KeyAction::Press(Button::Colors)),
                (Held::Ctrl, Key::F) => Some(KeyAction::ToggleFreeSpace),
                (Held::Ctrl, Key::U) => Some(KeyAction::ToggleUnknownSpace),
                (Held::Ctrl, Key::Plus) => Some(KeyAction::Press(Button::Deeper)),
                (Held::Ctrl, Key::Minus) => Some(KeyAction::Press(Button::Shallower)),
                _ => None,
            }
        },
    }
}

/// What the line below a view says while it is scanned.
pub open spec fn scanning_text(e: &ViewEntry, percent: Option<u64>) -> Seq<char> {
    let p = e.view.progress;
    "Scanning "@ + e.view.scan_path@ + " — "@ + text::dec(p.entries as nat) + " entries ("@
        + text::dec(p.files as nat) + " files, "@ + text::dec(p.dirs as nat) + " dirs), "@
        + sizes::bytes_text(p.allocated_bytes as nat) + (match percent {
        Some(n) => " — "@ + text::dec(n as nat) + "%"@,
        None => Seq::empty(),
    }) + (if e.paused() {
        " — paused"@
    } else {
        Seq::empty()
    })
}

/// What the line below a view says about the zoomed node.
pub open spec fn zoom_text(v: &ScanView) -> Seq<char> {
    let n = v.state().nodes[v.zoom as int];
    v.state().path_to(v.zoom) + " — "@ + text::dec(n.agg_files as nat) + " files, "@ + text::dec(
        n.agg_dirs as nat,
    ) + " dirs, "@ + sizes::bytes_text(n.agg_allocated as nat) + " on-disk / "@
        + sizes::bytes_text(n.agg_logical as nat) + " logical"@
}

/// A text that may be there.
pub open spec fn if_some(s: Option<Seq<char>>) -> Seq<Seq<char>> {
    match s {
        Some(t) => seq![t],
        None => Seq::empty(),
    }
}

/// The free space of a drive in words.
pub open spec fn free_text(v: &ScanView) -> Option<Seq<char>> {
    match v.drive_space {
        Some(ds) => if v.is_drive_view {
            Some("Free: "@ + sizes::bytes_text(ds.free as nat))
        } else {
            None
        },
        None => None,
    }
}

/// The selection in words.
pub open spec fn selected_text(v: &ScanView) -> Option<Seq<char>> {
    match v.selected {
        Some(id) => Some("Selected: "@ + v.state().path_to(id)),
        None => None,
    }
}

/// How many problems the scan had, in words.
pub open spec fn problems_text(v: &ScanView) -> Option<Seq<char>> {
    match v.summary {
        Some(s) => if s.errors@.len() > 0 {
            Some(text::dec(s.errors@.len()) + " scan problem(s)"@)
        } else {
            None
        },
        None => None,
    }
}

/// What the line below a view says, piece by piece.
pub open spec fn status_texts(e: &ViewEntry, percent: Option<u64>, notice: Option<Seq<char>>) -> Seq<
    Seq<char>,
> {
    if e.scan is Some {
        seq![scanning_text(e, percent)]
    } else if e.view.state().root is None {
        seq!["No scan — press Ctrl+N or drop a folder to begin."@]
    } else {
        seq![zoom_text(&e.view)] + if_some(free_text(&e.view)) + if_some(selected_text(&e.view))
            + if_some(problems_text(&e.view)) + if_some(scan::text_option(e.watch_notice))
            + if_some(notice)
    }
}

fn describe_scanning(e: &ViewEntry, percent: Option<u64>) -> (t: String)
    ensures
        t@ == scanning_text(e, percent),
{
    let p = e.view.progress;
    let mut t = "Scanning ".to_owned();
    t.append(e.view.scan_path.as_str());
    t.append(" — ");
    text::push_decimal(&mut t, p.entries);
    t.append(" entries (");
    text::push_decimal(&mut t, p.files);
    t.append(" files, ");
    text::push_decimal(&mut t, p.dirs);
    t.append(" dirs), ");
    t.append(sizes::format_bytes(p.allocated_bytes).as_str());
    let ghost base = t@;
    if let Some(n) = percent {
        t.append(" — ");
        text::push_decimal(&mut t, n);
        t.append("%");
    }
    if e.is_paused() {
        t.append(" — paused");
    }
    proof {
        assert(t@ =~= scanning_text(e, percent));
    }
    t
}

fn describe_zoom(v: &ScanView) -> (t: String)
    requires
        v.wf(),
        v.state().root is Some,
    ensures
        t@ == zoom_text(v),
{
    proof {
        assert(v.state().node_ok(v.zoom));
    }
    let node = v.tree().node(v.zoom);
    let mut t = v.tree().path(v.zoom);
    t.append(" — ");
    text::push_decimal(&mut t, node.agg_files);
    t.append(" files, ");
    text::push_decimal(&mut t, node.agg_dirs);
    t.append(" dirs, ");
    t.append(sizes::format_bytes(node.agg_allocated).as_str());
    t.append(" on-disk / ");
    t.append(sizes::format_bytes(node.agg_logical).as_str());
    t.append(" logical");
    t
}

fn push_some(list: &mut Vec<String>, s: Option<String>)
    ensures
        text::texts(final(list)@) == text::texts(old(list)@) + if_some(scan::text_option(s)),
{
    let ghost before = text::texts(list@);
    if let Some(t) = s {
        list.push(t);
        proof {
            assert(text::texts(list@) =~= before + seq![t@]);
        }
    } else {
        proof {
            assert(before + Seq::<Seq<char>>::empty() =~= before);
        }
    }
}

fn describe_free(v: &ScanView) -> (r: Option<String>)
    ensures
        scan::text_option(r) == free_text(v),
{
    if !v.is_drive_view {
        return None;
    }
    match v.drive_space {
        Some(ds) => {
            let mut t = "Free: ".to_owned();
            t.append(sizes::format_bytes(ds.free).as_str());
            Some(t)
        },
        None => None,
    }
}

fn describe_selected(v: &ScanView) -> (r: Option<String>)
    requires
        v.wf(),
    ensures
        scan::text_option(r) == selected_text(v),
{
    match v.selected {
        Some(id) => {
            let mut t = "Selected: ".to_owned();
            t.append(v.tree().path(id).as_str());
            Some(t)
        },
        None => None,
    }
}

fn describe_problem_count(v: &ScanView) -> (r: Option<String>)
    ensures
        scan::text_option(r) == problems_text(v),
{
    match &v.summary {
        Some(s) => {
            if s.errors.len() == 0 {
                return None;
            }
            let mut t = String::new();
            text::push_decimal(&mut t, s.errors.len() as u64);
            t.append(" scan problem(s)");
            proof {
                assert(t@ =~= text::dec(s.errors@.len()) + " scan problem(s)"@);
            }
            Some(t)
        },
        None => None,
    }
}

fn copied(s: &Option<String>) -> (r: Option<String>)
    ensures
        scan::text_option(r) == scan::text_option(*s),
{
    match s {
        Some(t) => Some(t.clone()),
        None => None,
    }
}

/// What the line below a view says, piece by piece. `percent` tells how far the
/// scan of a drive is.
pub fn status(e: &ViewEntry, percent: Option<u64>, notice: &Option<String>) -> (r: Vec<String>)
    requires
        e.view.wf(),
    ensures
        text::texts(r@) == status_texts(e, percent, scan::text_option(*notice)),
{
    let mut r: Vec<String> = Vec::new();
    if e.scan.is_some() {
        r.push(describe_scanning(e, percent));
        proof {
            assert(text::texts(r@) =~= seq![scanning_text(e, percent)]);
        }
        return r;
    }
    if !e.view.has_root() {
        r.push("No scan — press Ctrl+N or drop a folder to begin.".to_owned());
        proof {
            assert(text::texts(r@) =~= seq![
                "No scan — press Ctrl+N or drop a folder to begin."@,
            ]);
        }
        return r;
    }
    r.push(describe_zoom(&e.view));
    proof {
        assert(text::texts(r@) =~= seq![zoom_text(&e.view)]);
    }
    push_some(&mut r, describe_free(&e.view));
    push_some(&mut r, describe_selected(&e.view));
    push_some(&mut r, describe_problem_count(&e.view));
    push_some(&mut r, copied(&e.watch_notice));
    push_some(&mut r, copied(notice));
    r
}

/// What the log says about a view: its problems, and why nothing is watched.
pub open spec fn log_texts(e: &ViewEntry) -> Seq<Seq<char>> {
    (match e.view.summary {
        Some(s) => cli::problem_texts(s@.errors),
        None => Seq::empty(),
    }) + if_some(scan::text_option(e.watch_notice))
}

/// What the log says about a view.
pub fn log_lines(e: &ViewEntry) -> (r: Vec<String>)
    ensures
        text::texts(r@) == log_texts(e),
{
    let mut r: Vec<String> = match &e.view.summary {
        Some(s) => cli::describe_problems(s),
        None => Vec::new(),
    };
    proof {
        if e.view.summary is None {
            assert(text::texts(r@) =~= Seq::empty());
        }
    }
    push_some(&mut r, copied(&e.watch_notice));
    r
}

/// What the bar above a view says: the names on the way to the zoomed node, of
/// which all but the last can be pressed.
pub fn breadcrumbs(v: &ScanView) -> (r: Vec<(NodeId, String)>)
    requires
        v.wf(),
    ensures
        v.state().root is None ==> r@.len() == 0,
        v.state().root is Some ==> {
            let trail = v.crumbs();
            &&& r@.len() == trail.len()
            &&& forall|i: int|
                0 <= i < trail.len() ==> (#[trigger] r@[i]).0 == trail[i] && r@[i].1@
                    == v.state().nodes[trail[i] as int].name@
        },
{
    let mut r: Vec<(NodeId, String)> = Vec::new();
    if !v.has_root() {
        return r;
    }
    let ghost s = v.state();
    let ids = v.breadcrumb();
    proof {
        s.lemma_trail(
            v.zoom,
            if s.within(v.zoom, v.root) {
                (s.depth[v.zoom] - s.depth[v.root]) as nat
            } else {
                s.depth[v.zoom]
            },
        );
    }
    for i in 0..ids.len()
        invariant
            s == v.state(),
            ids@ == v.crumbs(),
            forall|j: int|
                0 <= j < ids@.len() ==> s.live(#[trigger] ids@[j]) && ids@[j] < s.nodes.len(),
            r@.len() == i,
            forall|j: int|
                0 <= j < i ==> (#[trigger] r@[j]).0 == ids@[j] && r@[j].1@ == s.nodes[ids@[j]
                    as int].name@,
    {
        r.push((ids[i], v.tree().node(ids[i]).name.clone()));
    }
    r
}

/// Buttons do what their names say, and none of them changes the tree.
pub proof fn law_buttons(v: &ScanView, new: &ScanView, b: Button)
    requires
        pressed(v, new, b),
    ensures
        new.state() == v.state(),
        new.root == v.root,
        b == Button::Back && v.back@.len() > 0 ==> new.zoom == v.back@[v.back@.len() - 1],
        b == Button::Forward && v.forward@.len() > 0 ==> new.zoom == v.forward@[v.forward@.len()
            - 1],
        b == Button::Root && v.state().root is Some ==> new.zoom == v.root,
        b == Button::Up && v.state().root is Some && v.zoom != v.root
            && v.state().nodes[v.zoom as int].parent is Some ==> Some(new.zoom)
            == v.state().nodes[v.zoom as int].parent,
        b == Button::Hide ==> new.hard_hide_filtered != v.hard_hide_filtered && new.zoom == v.zoom,
        b == Button::Colors ==> new.color_style != v.color_style && new.zoom == v.zoom,
        b == Button::Size ==> new.size_mode != v.size_mode && new.zoom == v.zoom,
        b == Button::Flash ==> new.flash_enabled != v.flash_enabled && new.zoom == v.zoom,
        b == Button::Deeper && 1 <= v.display_depth < 8 ==> new.display_depth == v.display_depth + 1,
        b == Button::Deeper && v.display_depth == 8 ==> new.display_depth == 8,
        b == Button::Shallower && 1 < v.display_depth <= 8 ==> new.display_depth == v.display_depth
            - 1,
        b == Button::Shallower && v.display_depth == 1 ==> new.display_depth == 1,
        b == Button::Pause || b == Button::Cancel ==> *new == *v,
{
}

/// What keys mean while no dialog is open and no text is typed.
pub proof fn law_keys()
    ensures
        key_means(Held::Nothing, Key::Num1, false, false) == Some(KeyAction::ToggleTag(Tag::Red)),
        key_means(Held::Nothing, Key::Num2, false, false) == Some(KeyAction::ToggleTag(Tag::Yellow)),
        key_means(Held::Nothing, Key::Num3, false, false) == Some(KeyAction::ToggleTag(Tag::Green)),
        key_means(Held::Nothing, Key::Num4, false, false) == Some(KeyAction::ToggleTag(Tag::Blue)),
        key_means(Held::Nothing, Key::Backspace, false, false) == Some(
            KeyAction::Press(Button::Back),
        ),
        key_means(Held::Shift, Key::Backspace, false, false) == Some(
            KeyAction::Press(Button::Forward),
        ),
        key_means(Held::Ctrl, Key::ArrowUp, false, false) == Some(KeyAction::Press(Button::Up)),
        key_means(Held::Ctrl, Key::Home, false, false) == Some(KeyAction::Press(Button::Root)),
        key_means(Held::Ctrl, Key::T, false, false) == Some(KeyAction::Press(Button::Colors)),
        key_means(Held::Ctrl, Key::F, false, false) == Some(KeyAction::ToggleFreeSpace),
        key_means(Held::Ctrl, Key::U, false, false) == Some(KeyAction::ToggleUnknownSpace),
        key_means(Held::Ctrl, Key::Plus, false, false) == Some(KeyAction::Press(Button::Deeper)),
        key_means(Held::Ctrl, Key::Minus, false, false) == Some(KeyAction::Press(Button::Shallower)),
{
}

/// Keys that work while text is typed as well, as long as no dialog is open.
pub proof fn law_keys_while_typing(typing: bool)
    ensures
        key_means(Held::Ctrl, Key::Num1, false, typing) == Some(KeyAction::ToggleTag(Tag::Red)),
        key_means(Held::Ctrl, Key::Num2, false, typing) == Some(KeyAction::ToggleTag(Tag::Yellow)),
        key_means(Held::Ctrl, Key::Num3, false, typing) == Some(KeyAction::ToggleTag(Tag::Green)),
        key_means(Held::Ctrl, Key::Num4, false, typing) == Some(KeyAction::ToggleTag(Tag::Blue)),
        key_means(Held::Ctrl, Key::Num0, false, typing) == Some(KeyAction::ClearTags),
        key_means(Held::Nothing, Key::F5, false, typing) == Some(KeyAction::Rescan),
        key_means(Held::Ctrl, Key::F5, false, typing) == Some(KeyAction::RescanZoom),
{
}

/// While text is typed, plain keys are text; a dialog keeps all keys but those that
/// open and close it.
pub proof fn law_keys_kept_back(held: Held, key: Key, dialog: bool, typing: bool)
    ensures
        key_means(Held::Ctrl, Key::N, dialog, typing) == Some(KeyAction::OpenStartDialog),
        key_means(Held::Nothing, Key::Escape, true, typing) == Some(KeyAction::CloseStartDialog),
        !(held == Held::Ctrl && key == Key::N) && !(held == Held::Nothing && key == Key::Escape)
            ==> key_means(held, key, true, typing) is None,
        held == Held::Nothing && key != Key::F5 ==> key_means(held, key, false, true) is None,
{
}

/// The line below a view names the zoomed node, counts its files and folders, and
/// gives its allocated size before its logical one.
pub proof fn law_status_of_zoom(v: &ScanView)
    ensures
        ({
            let n = v.state().nodes[v.zoom as int];
            zoom_text(v) == v.state().path_to(v.zoom) + " — "@ + text::dec(n.agg_files as nat)
                + " files, "@ + text::dec(n.agg_dirs as nat) + " dirs, "@ + sizes::bytes_text(
                n.agg_allocated as nat,
            ) + " on-disk / "@ + sizes::bytes_text(n.agg_logical as nat) + " logical"@
        }),
{
}

/// The line below a view shows a running scan alone; without one the zoomed node,
/// then the free space of a drive, the selection, problems and notices, as far as
/// there are any; and without a tree how to begin.
pub proof fn law_status_lines(e: &ViewEntry, percent: Option<u64>, notice: Option<Seq<char>>)
    ensures
        e.scan is Some ==> status_texts(e, percent, notice) == seq![scanning_text(e, percent)],
        e.scan is None && e.view.state().root is None ==> status_texts(e, percent, notice).len()
            == 1,
        e.scan is None && e.view.state().root is Some ==> status_texts(e, percent, notice)[0]
            == zoom_text(&e.view),
        e.view.is_drive_view && e.view.drive_space is Some ==> free_text(&e.view) == Some(
            "Free: "@ + sizes::bytes_text((e.view.drive_space->0).free as nat),
        ),
        !e.view.is_drive_view || e.view.drive_space is None ==> free_text(&e.view) is None,
        e.view.selected is Some ==> selected_text(&e.view) == Some(
            "Selected: "@ + e.view.state().path_to(e.view.selected->0),
        ),
        e.view.selected is None ==> selected_text(&e.view) is None,
{
}

/// The line of a running scan counts entries, files and folders and gives the
/// allocated size so far; it says how far the scan is and whether it pauses.
pub proof fn law_status_of_scan(e: &ViewEntry, percent: u64)
    ensures
        ({
            let p = e.view.progress;
            let head = "Scanning "@ + e.view.scan_path@ + " — "@ + text::dec(p.entries as nat)
                + " entries ("@ + text::dec(p.files as nat) + " files, "@ + text::dec(p.dirs as nat)
                + " dirs), "@ + sizes::bytes_text(p.allocated_bytes as nat);
            let shown = head + (" — "@ + text::dec(percent as nat) + "%"@);
            &&& !e.paused() ==> scanning_text(e, Some(percent)) == shown
            &&& e.paused() ==> scanning_text(e, Some(percent)) == shown + " — paused"@
            &&& !e.paused() ==> scanning_text(e, None) == head
        }),
{
    let p = e.view.progress;
    let head = "Scanning "@ + e.view.scan_path@ + " — "@ + text::dec(p.entries as nat)
        + " entries ("@ + text::dec(p.files as nat) + " files, "@ + text::dec(p.dirs as nat)
        + " dirs), "@ + sizes::bytes_text(p.allocated_bytes as nat);
    let shown = head + (" — "@ + text::dec(percent as nat) + "%"@);
    assert(shown + Seq::<char>::empty() =~= shown);
    assert(head + Seq::<char>::empty() + Seq::<char>::empty() =~= head);
}

} // verus!
