//! What calls on the windows, the tags of filters, the builder and the texts of a scan
//! do, said of the values before and after.
use vstd::prelude::*;

use crate::app_shell;
use crate::app_shell::RssApp;
use crate::builder::TreeBuilder;
use crate::cli;
use crate::config::ThemeSetting;
use crate::controls;
use crate::fileops;
use crate::filter_ast::{CmpOp, ParseWarning, TagSet};
use crate::filter::FilterVerdict;
use crate::node::{NodeKind, NodeParams, Tag};
use crate::scan;
use crate::scan::ScanSummary;
use crate::sizes;
use crate::template;
use crate::text;

use crate::view::ScanView;
use crate::walk;
use crate::walk::{Stamp, WindowsStat};
use crate::FileTime;
use crate::NodeId;

verus! {

/// A setting that is changed holds in every view and is remembered; the other
/// settings stay.
pub proof fn law_set_flash(a: &mut RssApp, on: bool, i: int)
    requires
        old(a).wf(),
        0 <= i < old(a).entries@.len(),
        call_ensures(RssApp::set_flash, (a, on), ()),
    ensures
        final(a).config.flash_enabled == Some(on),
        final(a).config.zoom_anim_ms == old(a).config.zoom_anim_ms,
        final(a).config.display_depth == old(a).config.display_depth,
        final(a).entries@.len() == old(a).entries@.len(),
        final(a).entries@[i].view.flash_enabled == on,
        final(a).entries@[i].view.zoom_anim_ms == old(a).entries@[i].view.zoom_anim_ms,
        final(a).entries@[i].view.display_depth == old(a).entries@[i].view.display_depth,
{
    app_shell::law_adopted(old(a).entries@[i], Some(on), None, None);
}

/// The length of animations that is set holds in every view and is remembered.
pub proof fn law_set_zoom_anim(a: &mut RssApp, ms: u64, i: int)
    requires
        old(a).wf(),
        0 <= i < old(a).entries@.len(),
        call_ensures(RssApp::set_zoom_anim, (a, ms), ()),
    ensures
        final(a).config.zoom_anim_ms == Some(ms),
        final(a).config.flash_enabled == old(a).config.flash_enabled,
        final(a).entries@[i].view.zoom_anim_ms == ms,
        final(a).entries@[i].view.flash_enabled == old(a).entries@[i].view.flash_enabled,
        final(a).entries@[i].view.display_depth == old(a).entries@[i].view.display_depth,
{
    app_shell::law_adopted(old(a).entries@[i], None, Some(ms), None);
}

/// The depth that is set holds in every view and is remembered.
pub proof fn law_set_display_depth(a: &mut RssApp, depth: u32, i: int)
    requires
        old(a).wf(),
        0 <= i < old(a).entries@.len(),
        call_ensures(RssApp::set_display_depth, (a, depth), ()),
    ensures
        final(a).config.display_depth == Some(depth),
        final(a).config.flash_enabled == old(a).config.flash_enabled,
        final(a).entries@[i].view.display_depth == depth,
        final(a).entries@[i].view.flash_enabled == old(a).entries@[i].view.flash_enabled,
        final(a).entries@[i].view.zoom_anim_ms == old(a).entries@[i].view.zoom_anim_ms,
{
    app_shell::law_adopted(old(a).entries@[i], None, None, Some(depth));
}

/// Whether folders are watched is remembered; the views stay.
pub proof fn law_set_watch(a: &mut RssApp, on: bool)
    requires
        call_ensures(RssApp::set_watch, (a, on), ()),
    ensures
        final(a).config.watch_enabled == Some(on),
        final(a).entries == old(a).entries,
{
}

/// The windows are busy while a scan or a removal goes on.
pub proof fn law_is_busy(a: &RssApp, r: bool)
    requires
        call_ensures(RssApp::is_busy, (a,), r),
    ensures
        forall|i: int| 0 <= i < a.entries@.len() && (#[trigger] a.entries@[i]).scan is Some ==> r,
        a.delete_dialog matches Some(d) ==> (d.running && d.result is None ==> r),
        r && a.delete_dialog is None ==> exists|i: int|
            0 <= i < a.entries@.len() && (#[trigger] a.entries@[i]).scan is Some,
{
}

/// The scan of the first view can be paused, told to be so, and cancelled; those of
/// the other views go on.
pub proof fn law_root_scan(a: &mut RssApp, paused: bool)
    requires
        old(a).entries@.len() > 0,
        old(a).entries@[0].scan is Some,
        call_ensures(RssApp::set_root_scan_paused, (a, paused), ()),
    ensures
        final(a).entries@.len() == old(a).entries@.len(),
        final(a).entries@[0].scan is Some,
        (final(a).entries@[0].scan->0).pause == paused,
        (final(a).entries@[0].scan->0).cancel == (old(a).entries@[0].scan->0).cancel,
        forall|i: int|
            1 <= i < old(a).entries@.len() ==> final(a).entries@[i] == old(a).entries@[i],
{
}

/// Cancelling asks the scan of the first view to stop, and no other.
pub proof fn law_cancel_scan(a: &mut RssApp)
    requires
        old(a).entries@.len() > 0,
        call_ensures(RssApp::cancel_scan, (a,), ()),
    ensures
        final(a).entries@.len() == old(a).entries@.len(),
        old(a).entries@[0].scan is Some ==> final(a).entries@[0].scan is Some && (
        final(a).entries@[0].scan->0).cancel,
        old(a).entries@[0].scan is None ==> final(a).entries@[0].scan is None,
        final(a).entries@[0].view == old(a).entries@[0].view,
        forall|i: int|
            1 <= i < old(a).entries@.len() ==> final(a).entries@[i] == old(a).entries@[i],
{
}

/// The path of a view is the one that it scans.
pub proof fn law_view_paths(a: &RssApp, n: usize, i: usize, r: Option<&str>)
    requires
        call_ensures(RssApp::view_count, (a,), n),
        call_ensures(RssApp::view_path, (a, i), r),
    ensures
        r is Some <==> i < n,
        i < n ==> (r->0)@ == a.entries@[i as int].view.scan_path@,
{
}

/// Of two paths with a semicolon between them both are found.
pub proof fn law_split_paths(input: &str, x: Seq<char>, y: Seq<char>, v: Vec<String>)
    requires
        !x.contains(';'),
        !y.contains(';'),
        text::trim(x).len() > 0,
        text::trim(y).len() > 0,
        input@ == x + seq![';'] + y,
        call_ensures(app_shell::split_paths, (input,), v),
    ensures
        text::texts(v@) == seq![text::trim(x), text::trim(y)],
{
    app_shell::law_paths_in_field(x, y);
    app_shell::law_paths_in_field(y, y);
    assert(seq![text::trim(x)] + seq![text::trim(y)] =~= seq![text::trim(x), text::trim(y)]);
}

/// A theme that is asked for is put on: the dark one where dark is set, the light one
/// where light is set, and that of the system where neither is.
pub proof fn law_apply_theme(a: &mut RssApp, system_dark: Option<bool>)
    requires
        old(a).wf(),
        call_ensures(RssApp::apply_theme, (a, system_dark), ()),
    ensures
        old(a).config.theme == ThemeSetting::Dark ==> final(a).applied_dark == Some(true),
        old(a).config.theme == ThemeSetting::Light ==> final(a).applied_dark == Some(false),
        old(a).config.theme == ThemeSetting::System && system_dark is Some ==> final(a).applied_dark
            == system_dark,
        old(a).config.theme == ThemeSetting::System && system_dark is None ==> final(a).applied_dark
            == Some(true),
{
    app_shell::law_themes(system_dark);
}

/// A view can go back and forward as long as it remembers a node there.
pub proof fn law_ways(v: &ScanView, back: bool, forward: bool, root: bool)
    requires
        call_ensures(ScanView::can_go_back, (v,), back),
        call_ensures(ScanView::can_go_forward, (v,), forward),
        call_ensures(ScanView::has_root, (v,), root),
    ensures
        back <==> v.back@.len() > 0,
        forward <==> v.forward@.len() > 0,
        root <==> v.state().root is Some,
{
}

/// The tag of the selected node is set, or taken away if it had that tag; without a
/// selection nothing happens.
pub proof fn law_toggle_selected(v: &mut ScanView, tag: Tag, x: NodeId)
    requires
        old(v).wf(),
        call_ensures(ScanView::toggle_selected_tag, (v, tag), ()),
    ensures
        old(v).selected is None ==> *final(v) == *old(v),
        old(v).selected matches Some(id) ==> (old(v).state().nodes[id as int].tag == Some(tag)
            ==> final(v).state().nodes[id as int].tag is None),
        old(v).selected matches Some(id) ==> (old(v).state().nodes[id as int].tag != Some(tag)
            ==> final(v).state().nodes[id as int].tag == Some(tag)),
        old(v).selected matches Some(id) ==> (x != id && x < old(v).state().nodes.len()
            ==> final(v).state().nodes[x as int]
            == old(v).state().nodes[x as int]),
{
    if let Some(id) = old(v).selected {
        assert(old(v).state().live(id));
        assert(old(v).state().node_ok(id));
    }
}

/// A restored view shows a node with nothing selected, and remembers no move.
pub proof fn law_zoom_silently(v: &mut ScanView, id: NodeId)
    requires
        old(v).wf(),
        old(v).state().live(id),
        call_ensures(ScanView::zoom_to_silent, (v, id), ()),
    ensures
        final(v).zoom == id,
        final(v).selected is None,
        final(v).back == old(v).back,
        final(v).forward == old(v).forward,
{
}

/// Comparisons of filters are strict.
pub proof fn law_comparisons(less: bool, greater: bool, l: u64, r: u64)
    requires
        call_ensures(CmpOp::apply, (CmpOp::Lt, l, r), less),
        call_ensures(CmpOp::apply, (CmpOp::Gt, l, r), greater),
    ensures
        less <==> l < r,
        greater <==> l > r,
{
}

/// A set of tags holds what was put into it.
pub proof fn law_tag_sets(tag: Tag, one: TagSet, other: TagSet, both: TagSet, t: Tag)
    requires
        call_ensures(TagSet::from_tag, (tag,), one),
        call_ensures(TagSet::union, (one, other), both),
    ensures
        one.has(t) <==> t == tag,
        both.has(t) <==> t == tag || other.has(t),
        one.0 == (match tag {
            Tag::Red => 1u8,
            Tag::Yellow => 2u8,
            Tag::Green => 4u8,
            Tag::Blue => 8u8,
        }),
{
}

/// Two sets of tags meet exactly if a tag is in both.
pub proof fn law_tags_meet(a: TagSet, b: TagSet, r: bool)
    requires
        a.wf(),
        call_ensures(TagSet::intersects, (a, b), r),
    ensures
        r <==> exists|t: Tag| #[trigger] a.has(t) && b.has(t),
{
}

/// A warning names where it starts and ends, and what it says.
pub proof fn law_warning_texts(w: &ParseWarning, s: String)
    requires
        call_ensures(ParseWarning::describe, (w,), s),
    ensures
        s@ == "at "@ + text::dec(w.span.start as nat) + ".."@ + text::dec(w.span.end as nat) + ": "@
            + w.message@,
{
}

/// A scan counts each entry by its kind and adds up both sizes.
pub proof fn law_count(s: &mut ScanSummary, p: &NodeParams)
    requires
        scan::can_count(old(s)@, p@),
        call_ensures(ScanSummary::count, (s, p), ()),
    ensures
        final(s).entries == old(s).entries + 1,
        p@.kind == NodeKind::File ==> final(s).files == old(s).files + 1,
        p@.kind != NodeKind::File ==> final(s).files == old(s).files,
        p@.kind == NodeKind::Directory ==> final(s).dirs == old(s).dirs + 1,
        p@.kind != NodeKind::Directory ==> final(s).dirs == old(s).dirs,
        final(s).logical_size == old(s).logical_size + p@.logical_size,
        final(s).allocated_size == old(s).allocated_size + p@.allocated_size,
{
    assert(final(s)@.entries == final(s).entries);
}

/// What was found anew about a node replaces its sizes and times.
pub proof fn law_restat(b: &mut TreeBuilder, id: NodeId, p: &NodeParams)
    requires
        old(b)@.wf(),
        old(b)@.state.live(id),
        call_ensures(TreeBuilder::restat, (b, id, p), ()),
    ensures
        final(b)@.state.nodes[id as int].logical_size == p@.logical_size,
        final(b)@.state.nodes[id as int].allocated_size == p@.allocated_size,
        final(b)@.state.nodes[id as int].created == p@.created,
        final(b)@.state.nodes[id as int].modified == p@.modified,
        final(b)@.state.nodes[id as int].accessed == p@.accessed,
        final(b)@.state.nodes[id as int].name@ == old(b)@.state.nodes[id as int].name@,
{
    crate::builder::law_restated(old(b)@.state, final(b)@.state, id, p@, id);
}

/// A tag is put on one node, and nothing else changes.
pub proof fn law_builder_tags(b: &mut TreeBuilder, id: NodeId, tag: Option<Tag>, x: int)
    requires
        old(b)@.wf(),
        old(b)@.state.live(id),
        call_ensures(TreeBuilder::set_tag, (b, id, tag), ()),
    ensures
        final(b)@.state.nodes[id as int].tag == tag,
        0 <= x < old(b)@.state.nodes.len() && x != id ==> final(b)@.state.nodes[x]
            == old(b)@.state.nodes[x],
        final(b)@.state.nodes[id as int].agg_allocated
            == old(b)@.state.nodes[id as int].agg_allocated,
{
    assert(old(b)@.state.node_ok(id));
}

/// The kinds of nodes that a report takes as files, as folders and as neither.
pub proof fn law_report_kinds(kind: NodeKind, file: bool, folder: bool, other: bool)
    requires
        call_ensures(template::is_file_kind, (kind,), file),
        call_ensures(template::is_folder_kind, (kind,), folder),
        call_ensures(template::is_container_kind, (kind,), other),
    ensures
        kind == NodeKind::File ==> file && !folder && !other,
        kind == NodeKind::Ads ==> file && !folder && !other,
        kind == NodeKind::Directory ==> !file && folder && !other,
        kind == NodeKind::FreeSpace ==> !file && !folder && other,
        kind == NodeKind::UnknownSpace ==> !file && !folder && other,
        kind == NodeKind::Unaccessible ==> !file && !folder && other,
{
}

/// The way to the zoomed node is shown by the names of the nodes on it.
pub proof fn law_breadcrumbs(v: &ScanView, r: Vec<(NodeId, String)>, ids: Vec<NodeId>, i: int)
    requires
        v.wf(),
        v.state().root is Some,
        call_ensures(controls::breadcrumbs, (v,), r),
        call_ensures(ScanView::breadcrumb, (v,), ids),
        0 <= i < ids@.len(),
    ensures
        r@.len() == ids@.len(),
        r@[i].0 == ids@[i],
        r@[i].1@ == v.state().nodes[ids@[i] as int].name@,
{
}

/// Removing a subtree needs a warning if a filter hides or dims a part of it.
pub proof fn law_filtered_out(v: &ScanView, id: NodeId, r: bool)
    requires
        v.wf(),
        v.state().live(id),
        call_ensures(fileops::subtree_has_filtered_out, (v, id), r),
    ensures
        forall|x: NodeId| #[trigger]
            v.state().within(x, id) && v.verdict_on(x) != FilterVerdict::Visible ==> r,
        r ==> exists|x: NodeId| #[trigger]
            v.state().within(x, id) && v.verdict_on(x) != FilterVerdict::Visible,
{
}

/// Times before the start of Unix time count as that start; others are counted from
/// it in whole seconds.
pub proof fn law_stamps(t: Stamp, ft: FileTime)
    requires
        walk::stamp_seconds(t) <= walk::LAST_SECOND,
        call_ensures(walk::stamp_to_filetime, (t,), ft),
    ensures
        t matches Stamp::After(n) ==> ft == n * 10_000_000 + 116_444_736_000_000_000,
        !(t is After) ==> ft == 116_444_736_000_000_000,
{
}

/// A file of a Windows file system whose allocated size is told as zero, though it
/// holds something, is asked again.
pub proof fn law_compressed_sizes(st: &WindowsStat, is_file: bool, r: bool)
    requires
        call_ensures(walk::wants_compressed_size, (st, is_file), r),
    ensures
        r <==> is_file && st.len > 0 && st.allocated == 0,
{
}

/// What is told after a scan: its sizes and counts, by name.
pub proof fn law_told_summary(s: &ScanSummary, t: String, logical: String)
    requires
        call_ensures(cli::describe_sizes, (s, false), t),
        call_ensures(cli::describe_sizes, (s, true), logical),
    ensures
        t@ == sizes::bytes_text(s.allocated_size as nat) + " allocated / "@ + sizes::bytes_text(
            s.logical_size as nat,
        ) + " logical total"@,
        logical@ == sizes::bytes_text(s.logical_size as nat) + " logical total"@,
{
    cli::law_told_sizes(s@);
}

} // verus!
