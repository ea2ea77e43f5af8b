//! What calls on a view, its entry and the windows around it do, said of the
//! values before and after.
use vstd::prelude::*;

use crate::app_shell;
use crate::app_shell::{RssApp, StartDialog};
use crate::config::ThemeSetting;
use crate::controls;
use crate::controls::{Button, Held, Key, KeyAction, Toolbar};
use crate::defaults::{Palette, Rgb};
use crate::diskspace::DiskSpace;
use crate::entry;
use crate::entry::{ScanMsg, Told, ViewEntry};
use crate::export::SizeMode;
use crate::fileops;
use crate::fileops::{DeleteDialog, DeleteMsg};
use crate::filter::FilterVerdict;
use crate::node::{NodeKind, Tag};
use crate::paths;
use crate::scan::{ScanProgress, ScanSummary, Upsert};
use crate::text;
use crate::treemap;
use crate::treemap::{LayoutKey, TreemapCmd};
use crate::view;
use crate::view::{CellRect, ColorStyle, ScanView, FREE_SPACE_ID, UNKNOWN_SPACE_ID};
use crate::view_laws;
use crate::NodeId;

verus! {

/// Moving to a node shows it and remembers where one was.
pub proof fn law_navigate_to(v: &mut ScanView, id: NodeId)
    requires
        old(v).wf(),
        old(v).state().live(id),
        id != old(v).zoom,
        call_ensures(ScanView::navigate_to, (v, id), ()),
    ensures
        final(v).zoom == id,
        final(v).back@ == old(v).back@.push(old(v).zoom),
        final(v).forward@.len() == 0,
        final(v).selected is None,
        final(v).root == old(v).root,
        final(v).state() == old(v).state(),
{
}

/// A step back goes to where one was last.
pub proof fn law_go_back(v: &mut ScanView)
    requires
        old(v).wf(),
        old(v).back@.len() > 0,
        call_ensures(ScanView::go_back, (v,), ()),
    ensures
        final(v).zoom == old(v).back@.last(),
        final(v).back@ == old(v).back@.drop_last(),
        final(v).forward@ == old(v).forward@.push(old(v).zoom),
        final(v).state() == old(v).state(),
{
}

/// A step forward goes to where the last step back came from.
pub proof fn law_go_forward(v: &mut ScanView)
    requires
        old(v).wf(),
        old(v).forward@.len() > 0,
        call_ensures(ScanView::go_forward, (v,), ()),
    ensures
        final(v).zoom == old(v).forward@.last(),
        final(v).forward@ == old(v).forward@.drop_last(),
        final(v).back@ == old(v).back@.push(old(v).zoom),
        final(v).state() == old(v).state(),
{
}

/// Zooming out shows the parent, and nothing else at the root.
pub proof fn law_zoom_out(v: &mut ScanView)
    requires
        old(v).wf(),
        old(v).state().root is Some,
        call_ensures(ScanView::zoom_out_one, (v,), ()),
    ensures
        old(v).zoom == old(v).root ==> *final(v) == *old(v),
        old(v).zoom != old(v).root && old(v).state().nodes[old(v).zoom as int].parent is Some
            ==> Some(final(v).zoom) == old(v).state().nodes[old(v).zoom as int].parent,
{
}

/// Zooming home shows the root.
pub proof fn law_zoom_home(v: &mut ScanView)
    requires
        old(v).wf(),
        old(v).state().root is Some,
        call_ensures(ScanView::zoom_home, (v,), ()),
    ensures
        final(v).zoom == old(v).root,
        final(v).root == old(v).root,
{
}

/// The size of a node is that of its subtree in the mode of the view.
pub proof fn law_size_of(v: &ScanView, id: NodeId, n: u64)
    requires
        v.wf(),
        v.state().live(id),
        call_ensures(ScanView::size_of, (v, id), n),
    ensures
        v.size_mode == SizeMode::Allocated ==> n == v.state().nodes[id as int].agg_allocated,
        v.size_mode == SizeMode::Logical ==> n == v.state().nodes[id as int].agg_logical,
{
}

/// What is not scanned yet is what is neither free nor scanned.
pub proof fn law_unknown_bytes(v: &ScanView, ds: DiskSpace, n: u64)
    requires
        v.drive_space == Some(ds),
        call_ensures(ScanView::unknown_bytes, (v,), n),
    ensures
        ds.free + v.progress.allocated_bytes <= ds.total ==> n + ds.free
            + v.progress.allocated_bytes == ds.total,
        ds.free + v.progress.allocated_bytes > ds.total ==> n == 0,
{
}

/// Each tag is shown in the colour at its place.
pub proof fn law_tag_color(v: &ScanView, tag: Tag, c: Rgb)
    requires
        call_ensures(ScanView::tag_color, (v, tag), c),
    ensures
        tag == Tag::Red ==> c == v.tag_colors@[0],
        tag == Tag::Yellow ==> c == v.tag_colors@[1],
        tag == Tag::Green ==> c == v.tag_colors@[2],
        tag == Tag::Blue ==> c == v.tag_colors@[3],
{
}

/// Tagging sets a tag or takes it off, on that node alone.
pub proof fn law_toggle_tag(v: &mut ScanView, id: NodeId, tag: Tag)
    requires
        old(v).wf(),
        old(v).state().live(id),
        id < old(v).state().nodes.len(),
        call_ensures(ScanView::toggle_tag, (v, id, tag), ()),
    ensures
        old(v).state().nodes[id as int].tag == Some(tag) ==> final(v).state().nodes[id as int].tag
            is None,
        old(v).state().nodes[id as int].tag != Some(tag) ==> final(v).state().nodes[id as int].tag
            == Some(tag),
        forall|x: int|
            0 <= x < old(v).state().nodes.len() && x != id ==> #[trigger] final(v).state().nodes[x]
                == old(v).state().nodes[x],
        final(v).verdicts_dirty,
        final(v).zoom == old(v).zoom,
{
}

/// Clearing tags takes them off the subtree and off nothing else.
pub proof fn law_clear_tags(v: &mut ScanView, id: NodeId, x: NodeId)
    requires
        old(v).wf(),
        old(v).state().live(id),
        x < old(v).state().nodes.len(),
        call_ensures(ScanView::clear_tags_below, (v, id), ()),
    ensures
        old(v).state().within(x, id) ==> final(v).state().nodes[x as int].tag is None,
        !old(v).state().within(x, id) ==> final(v).state().nodes[x as int]
            == old(v).state().nodes[x as int],
        final(v).verdicts_dirty,
{
    view_laws::law_tags_are_cleared(old(v).state(), id, x);
}

/// A node that changed flashes for 700 milliseconds from then on; flashes that are
/// over end, and the others go on.
pub proof fn law_update_flashes(v: &mut ScanView, now: u64, r: bool, id: NodeId)
    requires
        now <= u64::MAX - 700,
        call_ensures(ScanView::update_flashes, (v, now), r),
    ensures
        old(v).changed@.contains(id) ==> view::flashing(final(v).flash_until@, id) == Some(
            (now + 700) as u64,
        ),
        !old(v).changed@.contains(id) && (view::flashing(old(v).flash_until@, id) matches Some(u)
            && u > now) ==> view::flashing(final(v).flash_until@, id) == view::flashing(
            old(v).flash_until@,
            id,
        ),
        !old(v).changed@.contains(id) && !(view::flashing(old(v).flash_until@, id) matches Some(u)
            && u > now) ==> view::flashing(final(v).flash_until@, id) is None,
        final(v).changed@.len() == 0,
        view::flashing(final(v).flash_until@, id) is Some ==> r,
{
}

/// The strength of a flash falls from 600 to nothing over its time.
pub proof fn law_flash_alpha(v: &ScanView, id: NodeId, now: u64, until: u64, r: Option<u64>)
    requires
        view::flashing(v.flash_until@, id) == Some(until),
        call_ensures(ScanView::flash_alpha, (v, id, now), r),
    ensures
        until <= now ==> r == Some(0u64),
        now < until && until - now <= 700 ==> r == Some(((until - now) * 600 / 700) as u64),
{
}

/// Toggles change what they are named after and nothing else that is shown.
pub proof fn law_toggles(
    a: &mut ScanView,
    b: &mut ScanView,
    c: &mut ScanView,
    d: &mut ScanView,
    e: &mut ScanView,
)
    requires
        old(a).layout_epoch < u64::MAX,
        old(c).layout_epoch < u64::MAX,
        old(d).layout_epoch < u64::MAX,
        old(e).layout_epoch < u64::MAX,
        call_ensures(ScanView::toggle_hard_hide, (a,), ()),
        call_ensures(ScanView::toggle_color_style, (b,), ()),
        call_ensures(ScanView::toggle_size_mode, (c,), ()),
        call_ensures(ScanView::toggle_free_space, (d,), ()),
        call_ensures(ScanView::toggle_unknown_space, (e,), ()),
    ensures
        final(a).hard_hide_filtered != old(a).hard_hide_filtered,
        final(a).size_mode == old(a).size_mode,
        final(b).color_style != old(b).color_style,
        final(c).size_mode != old(c).size_mode,
        final(c).hard_hide_filtered == old(c).hard_hide_filtered,
        final(d).show_free_space != old(d).show_free_space,
        final(d).show_unknown == old(d).show_unknown,
        final(e).show_unknown != old(e).show_unknown,
        final(e).show_free_space == old(e).show_free_space,
{
}

/// A view takes the colours of a palette, class by class.
pub proof fn law_apply_palette(v: &mut ScanView, p: &Palette, i: int)
    requires
        call_ensures(ScanView::apply_palette, (v, p), ()),
        0 <= i < old(v).class_styles@.len(),
    ensures
        final(v).flat_colors == p.flat,
        final(v).tag_colors == p.tags,
        final(v).level_contrast == p.level_contrast,
        final(v).class_styles@[i].class == old(v).class_styles@[i].class,
        i < p.classes@.len() ==> final(v).class_styles@[i].color == p.classes@[i].color,
        i >= p.classes@.len() ==> final(v).class_styles@[i].color == old(v).class_styles@[i].color,
        final(v).color_style == old(v).color_style,
{
}

/// A scan that ends leaves its summary, and the view sorts once more.
pub proof fn law_scan_ended(v: &mut ScanView, summary: ScanSummary)
    requires
        old(v).wf(),
        call_ensures(ScanView::scan_ended, (v, summary), ()),
    ensures
        !final(v).scanning,
        final(v).summary == Some(summary),
        final(v).resort_once,
        final(v).state() == old(v).state(),
        final(v).zoom == old(v).zoom,
{
}

/// A scan that begins is of the path it is given.
pub proof fn law_scan_began(v: &mut ScanView, path: String)
    requires
        old(v).wf(),
        call_ensures(ScanView::scan_began, (v, path), ()),
    ensures
        final(v).scanning,
        final(v).scan_path@ == path@,
        final(v).is_drive_view <==> paths::parts(path@) == paths::parts("/"@),
        final(v).state() == old(v).state(),
{
}

/// The space of a drive is remembered with the time at which it was asked for, and
/// asked for again after two seconds.
pub proof fn law_drive_space(
    v: &mut ScanView,
    now: u64,
    space: Option<DiskSpace>,
    w: &ScanView,
    later: u64,
    due: bool,
)
    requires
        call_ensures(ScanView::set_drive_space, (v, now, space), ()),
        *w == *final(v),
        later >= now,
        call_ensures(ScanView::drive_space_due, (w, later), due),
    ensures
        final(v).drive_space == space,
        due <==> w.is_drive_view && later - now >= 2000,
{
}

/// The colour of an element is that of its kind or, in the style of classes, of the
/// first class that lists its extension.
pub proof fn law_cell_color(
    v: &ScanView,
    id: NodeId,
    c: Rgb,
    stem: Seq<char>,
    ext: Seq<char>,
    i: int,
)
    requires
        v.wf(),
        v.state().live(id),
        call_ensures(treemap::cell_color, (v, id), c),
        v.color_style == ColorStyle::FileClasses,
        v.state().nodes[id as int].kind != NodeKind::Directory,
        v.state().nodes[id as int].name@ == stem + seq!['.'] + ext,
        !ext.contains('.'),
        ext.len() > 0,
        0 <= i <= v.class_styles@.len(),
        forall|j: int| 0 <= j < i ==> !treemap::among(#[trigger] v.class_styles@[j], ext),
        i < v.class_styles@.len() ==> treemap::among(v.class_styles@[i], ext),
    ensures
        i < v.class_styles@.len() ==> c == v.class_styles@[i].color,
        i == v.class_styles@.len() ==> c == v.flat_colors.file,
{
    let node = v.state().nodes[id as int];
    if i < v.class_styles@.len() {
        treemap::law_first_class_colors(v, node, stem, ext, i);
    } else {
        treemap::law_unclassed_colors(v, node, stem, ext);
    }
}

/// In the flat style the kind of a node alone decides its colour.
pub proof fn law_flat_cell_color(v: &ScanView, id: NodeId, c: Rgb)
    requires
        v.wf(),
        v.state().live(id),
        call_ensures(treemap::cell_color, (v, id), c),
        v.color_style == ColorStyle::Flat,
    ensures
        v.state().nodes[id as int].kind == NodeKind::Directory ==> c == v.flat_colors.folder,
        v.state().nodes[id as int].kind == NodeKind::File ==> c == v.flat_colors.file,
        v.state().nodes[id as int].kind == NodeKind::FreeSpace ==> c == v.flat_colors.free_space,
        v.state().nodes[id as int].kind == NodeKind::UnknownSpace ==> c
            == v.flat_colors.unknown_space,
{
}

/// Elements are dimmed where a filter is active and does not show them in full.
pub proof fn law_dimmed(v: &ScanView, id: NodeId, r: bool)
    requires
        call_ensures(treemap::is_dimmed, (v, id), r),
    ensures
        !v.filters() ==> !r,
        v.filters() && id < v.verdicts@.len() ==> (r <==> v.verdicts@[id as int]
            != FilterVerdict::Visible),
{
}

/// Folders show what is in them down to the number of levels of the view.
pub proof fn law_shows_children(v: &ScanView, id: NodeId, depth: u32, r: bool)
    requires
        v.wf(),
        id == FREE_SPACE_ID || id == UNKNOWN_SPACE_ID || v.state().live(id),
        call_ensures(treemap::shows_children, (v, id, depth), r),
    ensures
        id == FREE_SPACE_ID || id == UNKNOWN_SPACE_ID ==> !r,
        id != FREE_SPACE_ID && id != UNKNOWN_SPACE_ID ==> (r <==> v.state().nodes[id as int].kind
            == NodeKind::Directory && depth < v.display_depth),
{
}

/// A layout is shown again as long as nothing changed, and while a scan runs for a
/// quarter of a second although the tree did.
pub proof fn law_layout_reuse(
    v: &ScanView,
    key: LayoutKey,
    sorted: bool,
    made: u64,
    same_area: bool,
    now: u64,
    r: bool,
)
    requires
        call_ensures(treemap::layout_key, (v, sorted, made), key),
        call_ensures(treemap::layout_reusable, (v, &key, sorted, same_area, now), r),
    ensures
        r <==> same_area,
        key.time == made,
{
}

/// All elements are sorted unless a scan runs, and then once after the user moved.
pub proof fn law_take_order(v: &mut ScanView, sorted: bool)
    requires
        call_ensures(treemap::take_order, (v,), sorted),
    ensures
        sorted <==> !old(v).scanning || old(v).resort_once,
        !final(v).resort_once,
        final(v).zoom == old(v).zoom,
{
}

/// A click selects, a double or triple click on a folder zooms into it.
pub proof fn law_clicks(
    v: &ScanView,
    id: NodeId,
    rect: CellRect,
    cmds: Vec<TreemapCmd>,
    clicked: bool,
    doubled: bool,
    tripled: bool,
)
    requires
        v.wf(),
        v.state().live(id),
        call_ensures(treemap::clicks, (v, id, rect, clicked, doubled, tripled), cmds),
    ensures
        cmds@.contains(TreemapCmd::Select(id)) <==> clicked,
        cmds@.contains(TreemapCmd::Zoom(id, rect)) <==> (doubled || tripled)
            && v.state().nodes[id as int].kind == NodeKind::Directory,
{
    treemap::law_clicks(v.state(), id, rect, clicked, doubled || tripled);
    let folder = v.state().nodes[id as int].kind == NodeKind::Directory;
    if clicked {
        assert(cmds@[0] == TreemapCmd::Select(id));
    }
    if (doubled || tripled) && folder {
        assert(cmds@[cmds@.len() - 1] == TreemapCmd::Zoom(id, rect));
    }
}

/// What is planned to be deleted is the node with all that it holds on disk; the
/// filter hides part of it if there is one and something in it is not shown in
/// full.
pub proof fn law_delete_plan(v: &ScanView, id: NodeId, d: DeleteDialog)
    requires
        v.wf(),
        v.state().live(id),
        call_ensures(fileops::delete_plan_for, (v, id), d),
    ensures
        d.item.path@ == v.state().path_to(id),
        d.item.total_bytes == v.state().nodes[id as int].agg_allocated,
        d.item.filter_hidden <==> v.filters() && exists|x: NodeId| #[trigger]
            v.state().within(x, id) && v.verdict_on(x) != FilterVerdict::Visible,
        d.node == id,
        d.freed == 0,
        !d.running,
        d.result is None,
{
}

/// What is freed adds up, and the end is remembered.
pub proof fn law_delete_progress(d: &mut DeleteDialog, n: u64)
    requires
        old(d).freed + n <= u64::MAX,
        call_ensures(DeleteDialog::take, (d, DeleteMsg::Freed(n)), ()),
    ensures
        final(d).freed == old(d).freed + n,
        final(d).item == old(d).item,
        final(d).result == old(d).result,
        final(d).running == old(d).running,
{
}

/// Starting to delete says so, and changes nothing else.
pub proof fn law_delete_start(d: &mut DeleteDialog, done: bool)
    requires
        call_ensures(DeleteDialog::start, (d,), ()),
        call_ensures(DeleteDialog::is_done, (&*old(d),), done),
    ensures
        final(d).running,
        final(d).freed == old(d).freed,
        final(d).result == old(d).result,
        done <==> old(d).result is Some,
{
}

/// Once the deletion is over, what was above the node is scanned again, once, unless
/// the view comes from a file.
pub proof fn law_rescan_after_delete(d: &mut DeleteDialog, v: &ScanView, r: Option<String>)
    requires
        v.wf(),
        v.state().live(old(d).node),
        call_ensures(DeleteDialog::take_rescan, (d, v), r),
    ensures
        r is Some <==> old(d).result is Some && !old(d).rescanned
            && v.state().nodes[old(d).node as int].parent is Some && v.snapshot_source is None,
        r matches Some(p) ==> p@ == v.state().path_to(
            v.state().nodes[old(d).node as int].parent->0,
        ) && final(d).rescanned,
{
}

/// The buttons of a view can be pressed where they do something, and say what is
/// the case.
pub proof fn law_toolbar(e: &ViewEntry, t: Toolbar)
    requires
        e.view.wf(),
        call_ensures(controls::toolbar, (e,), t),
    ensures
        t.can_back <==> e.view.back@.len() > 0,
        t.can_forward <==> e.view.forward@.len() > 0,
        t.can_up <==> e.view.state().root is Some && e.view.zoom != e.view.root,
        t.can_root <==> e.view.back@.len() > 0 || (e.view.state().root is Some && e.view.zoom
            != e.view.root),
        t.can_rescan <==> e.ever_scanned && e.scan is None,
        t.scanning <==> e.scan is Some,
        t.can_export <==> e.view.state().root is Some,
        t.can_hide <==> e.view.filters(),
        t.depth == e.view.display_depth,
        (e.scan matches Some(s) && s.pause) ==> t.pause_label@ == "Resume"@,
        !(e.scan matches Some(s) && s.pause) ==> t.pause_label@ == "Pause"@,
        e.view.hard_hide_filtered ==> t.hide_label@ == "Filtered: hide"@,
        !e.view.hard_hide_filtered ==> t.hide_label@ == "Filtered: dim"@,
        e.view.color_style == ColorStyle::Flat ==> t.color_label@ == "Colors: flat"@,
        e.view.color_style == ColorStyle::FileClasses ==> t.color_label@ == "Colors: classes"@,
        e.view.size_mode == SizeMode::Allocated ==> t.size_label@ == "Size: on-disk"@,
        e.view.size_mode == SizeMode::Logical ==> t.size_label@ == "Size: logical"@,
        e.view.flash_enabled ==> t.flash_label@ == "Flash: on"@,
        !e.view.flash_enabled ==> t.flash_label@ == "Flash: off"@,
{
}

/// The buttons of a scan pause it, let it go on, or end it; no other button touches
/// it.
pub proof fn law_press(e: &mut ViewEntry, b: Button)
    requires
        old(e).view.wf(),
        controls::pressable(&old(e).view),
        call_ensures(controls::press, (e, b), ()),
    ensures
        b == Button::Pause && old(e).scan is Some ==> final(e).scan is Some && (
        final(e).scan->0).pause != (old(e).scan->0).pause && (final(e).scan->0).cancel == (
        old(e).scan->0).cancel,
        b == Button::Cancel && old(e).scan is Some ==> final(e).scan is Some && (
        final(e).scan->0).cancel,
        b != Button::Pause && b != Button::Cancel ==> final(e).scan == old(e).scan,
        b == Button::Root && old(e).view.state().root is Some ==> final(e).view.zoom
            == old(e).view.root,
        b == Button::Size ==> final(e).view.size_mode != old(e).view.size_mode,
        final(e).view.state() == old(e).view.state(),
{
    controls::law_buttons(&old(e).view, &final(e).view, b);
}

/// The digits tag what is selected.
pub proof fn law_tag_keys(held: Held, typing: bool, r: Option<KeyAction>)
    requires
        held == Held::Ctrl || (held == Held::Nothing && !typing),
        call_ensures(controls::key_action, (held, Key::Num1, false, typing), r),
    ensures
        r == Some(KeyAction::ToggleTag(Tag::Red)),
{
    controls::law_keys();
    controls::law_keys_while_typing(typing);
}

/// Progress of a scan is shown as it is told.
pub proof fn law_take_progress(e: &mut ViewEntry, p: ScanProgress, r: Told)
    requires
        old(e).view.wf(),
        entry::has_room(&old(e).view),
        call_ensures(ViewEntry::take, (e, ScanMsg::Progress(p)), r),
    ensures
        final(e).view.progress == p,
        final(e).view.state() == old(e).view.state(),
        final(e).scan == old(e).scan,
        r is Nothing,
{
    reveal(entry::progress_taken);
}

/// A scan that ends well leaves its summary and lets changes be watched; one that
/// fails says so.
pub proof fn law_take_end(e: &mut ViewEntry, result: Result<ScanSummary, String>, r: Told)
    requires
        old(e).view.wf(),
        entry::has_room(&old(e).view),
        call_ensures(ViewEntry::take, (e, ScanMsg::Finished(result)), r),
    ensures
        final(e).scan is None,
        !final(e).view.scanning,
        result matches Ok(s) ==> r is StartWatcher && final(e).view.summary == Some(s),
        result matches Err(m) ==> (r matches Told::Notice(n) && n@ == "scan failed: "@ + m@)
            && final(e).view.summary == old(e).view.summary,
{
    reveal(entry::end_taken);
}

/// Pausing and ending a scan change the scan alone.
pub proof fn law_pause_and_cancel(a: &mut ViewEntry, b: &mut ViewEntry, paused: bool)
    requires
        call_ensures(ViewEntry::set_paused, (a, paused), ()),
        call_ensures(ViewEntry::cancel, (b,), ()),
        old(a).scan is Some,
        old(b).scan is Some,
    ensures
        final(a).scan is Some && (final(a).scan->0).pause == paused && (final(a).scan->0).cancel == (
        old(a).scan->0).cancel,
        final(b).scan is Some && (final(b).scan->0).cancel && (final(b).scan->0).pause == (
        old(b).scan->0).pause,
        final(a).view == old(a).view,
        final(b).view == old(b).view,
{
}

/// Changes are watched once there is a tree, unless the settings say otherwise.
pub proof fn law_wants_watcher(e: &mut ViewEntry, enabled: Option<bool>, r: bool)
    requires
        call_ensures(ViewEntry::wants_watcher, (e, enabled), r),
    ensures
        r <==> old(e).view.state().root is Some && enabled != Some(false),
        old(e).view.state().root is Some && enabled == Some(false) ==> final(e).watch_notice is Some,
        r ==> *final(e) == *old(e),
{
}

/// A watcher that starts is at work; one that does not is told of.
pub proof fn law_watcher_started(a: &mut ViewEntry, outcome: Result<(), String>)
    requires
        call_ensures(ViewEntry::watcher_started, (a, outcome), ()),
    ensures
        outcome is Ok ==> final(a).watching && final(a).watch_notice == old(a).watch_notice,
        outcome is Err ==> final(a).watch_notice is Some && final(a).watching == old(a).watching,
        final(a).view == old(a).view,
{
}

/// A view is scanned again where its path is known and it does not come from a file.
pub proof fn law_rescan_path(e: &ViewEntry, r: Option<String>)
    requires
        call_ensures(ViewEntry::rescan_path, (e,), r),
    ensures
        r is Some <==> e.view.scan_path@.len() > 0 && e.view.snapshot_source is None,
        r matches Some(p) ==> p@ == e.view.scan_path@,
{
}

/// The top of a partial scan hangs below the folder above it, under the last part
/// of its path; what lies below it stays as it is.
pub proof fn law_regraft(u: Upsert, path: &str, r: Upsert)
    requires
        call_ensures(entry::regraft, (u, path), r),
    ensures
        u@.parent_path is Some ==> r@ == u@,
        u@.parent_path is None ==> r@.parent_path == paths::parent(path@) && r@.path == u@.path,
        u@.parent_path is None && paths::file_name(path@) is Some ==> Some(r@.params.name)
            == paths::file_name(path@),
        r@.params.created == u@.params.created,
        r@.params.accessed == u@.params.accessed,
        r@.params.modified == u@.params.modified,
        r@.params.logical_size == u@.params.logical_size,
        r@.params.allocated_size == u@.params.allocated_size,
{
}

/// The dialog at the start hands out the paths in its field and closes, or says that
/// there is none.
pub proof fn law_submit_paths(d: &mut StartDialog, v: Vec<String>)
    requires
        call_ensures(StartDialog::submit_paths, (d,), v),
    ensures
        text::texts(v@) == app_shell::paths_in(old(d).path@),
        v@.len() == 0 ==> final(d).error is Some && final(d).open == old(d).open,
        v@.len() > 0 ==> !final(d).open && final(d).error == old(d).error,
{
    assert(text::texts(v@).len() == v@.len());
}

/// A snapshot is opened by the path in its field without the white space around it.
pub proof fn law_submit_snapshot(d: &mut StartDialog, r: Option<String>)
    requires
        call_ensures(StartDialog::submit_snapshot, (d,), r),
    ensures
        r is Some <==> text::trim(old(d).snapshot_path@).len() > 0,
        r matches Some(p) ==> p@ == text::trim(old(d).snapshot_path@) && !final(d).open,
        r is None ==> final(d).error is Some && final(d).open == old(d).open,
{
}

/// The theme of the settings is the one that was set.
pub proof fn law_set_theme(a: &mut RssApp, theme: ThemeSetting, b: &RssApp, t: ThemeSetting)
    requires
        call_ensures(RssApp::set_theme, (a, theme), ()),
        *b == *final(a),
        call_ensures(RssApp::theme_setting, (b,), t),
    ensures
        t == theme,
        final(a).entries == old(a).entries,
{
}

/// The application scans while any of its views does.
pub proof fn law_is_scanning(a: &RssApp, r: bool, i: int)
    requires
        call_ensures(RssApp::is_scanning, (a,), r),
    ensures
        0 <= i < a.entries@.len() && a.entries@[i].scan is Some ==> r,
        (forall|j: int| 0 <= j < a.entries@.len() ==> (#[trigger] a.entries@[j]).scan is None)
            ==> !r,
{
}

} // verus!
