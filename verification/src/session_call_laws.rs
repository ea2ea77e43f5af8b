//! What calls on chains of commands, on entries and on the parts of a view do, said
//! of the values before and after.
use vstd::prelude::*;

use crate::bytes;
use crate::cli_meta;
use crate::cli_meta::{Action, Cmd, Plan, Session};
use crate::defaults::Rgb;
use crate::entry::ViewEntry;
use crate::export;
use crate::export::{JsonNode, SizeMode};
use crate::export_error::ExportError;
use crate::export_laws;
use crate::filter;
use crate::filter::{Filter, FilterVerdict};
use crate::mft;
use crate::node::NodeKind;
use crate::paths;
use crate::scan::ScanEvent;
use crate::snapshot;
use crate::text;
use crate::tree::Tree;
use crate::treemap;
use crate::usn;
use crate::usn::{UsnParseError, UsnRecord};
use crate::verdicts;
use crate::view::{ScanView, FREE_SPACE_ID, UNKNOWN_SPACE_ID};
use crate::FileTime;
use crate::NodeId;

verus! {

/// Of a path made of a folder and a name, the name is found as the last part and the
/// folder as what stands above it.
pub proof fn law_path_calls(
    base: &str,
    name: Seq<char>,
    path: &str,
    up: Option<String>,
    last: Option<String>,
    rest: Option<Vec<String>>,
)
    requires
        base@.len() > 0,
        name.len() > 0,
        !name.contains('/'),
        name != seq!['.'],
        name != seq!['.', '.'],
        base@.last() != '/' || base@ == seq!['/'],
        path@ == (if base@.last() == '/' {
            base@ + name
        } else {
            base@ + seq!['/'] + name
        }),
        call_ensures(paths::parent_path, (path,), up),
        call_ensures(paths::name_of, (path,), last),
        call_ensures(paths::strip_prefix, (path, base), rest),
    ensures
        up is Some && (up->0)@ == paths::canonical(base@),
        last is Some && (last->0)@ == name,
        rest is Some && text::texts((rest->0)@) == seq![name],
{
    paths::law_child_paths(base@, name);
}

/// Before anything was scanned or loaded there is nothing to filter, to export or to
/// save, and a session stays as it is.
pub proof fn law_first_commands(s: &mut Session, cmd: &Cmd, r: Result<Action, String>)
    requires
        old(s).wf(),
        old(s).subject is None,
        call_ensures(Session::step, (s, cmd), r),
    ensures
        final(s).subject is None,
        cmd is Filter || cmd is Export || cmd is Save ==> r is Err,
        *cmd matches Cmd::Scan(p) ==> (r matches Ok(Action::Scan(q)) && q@ == p@),
        *cmd matches Cmd::Load(p) ==> (r matches Ok(Action::Load(q)) && q@ == p@),
        cmd is Autoclose ==> r is Ok,
{
}

/// With a tree at hand a filter is taken down for it, it is saved under the path that
/// is given, and it is exported by the template of the name that is given.
pub proof fn law_later_commands(s: &mut Session, cmd: &Cmd, r: Result<Action, String>)
    requires
        old(s).wf(),
        old(s).subject is Some,
        call_ensures(Session::step, (s, cmd), r),
    ensures
        final(s).subject is Some,
        (final(s).subject->0).tree == (old(s).subject->0).tree,
        (final(s).subject->0).root == (old(s).subject->0).root,
        *cmd matches Cmd::Filter(e) ==> r is Ok && (final(s).subject->0).filter@ == e@,
        !(cmd is Filter) ==> final(s).subject == old(s).subject,
        *cmd matches Cmd::Save(p) ==> (r matches Ok(Action::Save(q)) && q@ == p@),
        *cmd matches Cmd::Export { config, dest } ==> (config@ == "Plain list"@ ==> (
        r matches Ok(Action::Export { template, dest: d }) && template@.name == "Plain list"@ && d@
            == dest@)),
        *cmd matches Cmd::Export { config, dest } ==> (config@ == "Grouped by folder"@ ==> (
        r matches Ok(Action::Export { template, dest: d }) && template@.name == "Grouped by folder"@
            && d@ == dest@)),
        *cmd matches Cmd::Export { config, dest } ==> (config@ != "Plain list"@ && config@
            != "Grouped by folder"@ ==> r is Err),
{
}

/// A tree that was scanned becomes the subject, without a filter.
pub proof fn law_scanned(s: &mut Session, tree: Tree, r: Result<(), String>)
    requires
        old(s).wf(),
        tree@.wf(),
        call_ensures(Session::scanned, (s, tree), r),
    ensures
        tree@.root is Some ==> r is Ok && final(s).subject is Some && (final(s).subject->0).tree
            == tree && Some((final(s).subject->0).root) == tree@.root && (
        final(s).subject->0).filter@.len() == 0,
        tree@.root is None ==> r is Err && final(s).subject == old(s).subject,
{
}

/// Without arguments, and where `help` comes first, help is shown.
pub proof fn law_help(args: &[String], p: Plan)
    requires
        call_ensures(cli_meta::plan, (args,), p),
    ensures
        args@.len() == 0 ==> p is Help,
        args@.len() > 0 && args@[0]@ == "help"@ ==> p is Help,
{
    let t = text::texts(args@);
    if args@.len() > 0 && args@[0]@ == "help"@ {
        reveal_strlit("help");
        reveal_strlit("--headless");
        reveal_strlit("--console");
        assert("help"@.len() == 4 && "--headless"@.len() == 10 && "--console"@.len() == 9);
        assert(t[0] == "help"@);
    }
}

/// A chain of commands starts with `load`, `help` or `autoclose`, or with a scan and
/// a command behind its path.
pub proof fn law_chains(args: &[String], r: bool)
    requires
        call_ensures(cli_meta::is_meta_form, (args,), r),
        args@.len() > 0,
    ensures
        args@[0]@ == "load"@ ==> r,
        args@[0]@ == "help"@ ==> r,
        args@[0]@ == "autoclose"@ ==> r,
        args@[0]@ == "scan"@ && args@.len() <= 2 ==> !r,
        args@[0]@ == "scan"@ && args@.len() > 2 && args@[2]@ == "save"@ ==> r,
        args@[0]@ == "scan"@ && args@.len() > 2 && args@[2]@ == "export"@ ==> r,
        args@[0]@ == "scan"@ && args@.len() > 2 && args@[2]@ == "filter"@ ==> r,
        args@[0]@ == "export"@ ==> !r,
        args@[0]@ == "filter"@ ==> !r,
        args@[0]@ == "save"@ ==> !r,
{
    reveal_strlit("help");
    reveal_strlit("load");
    reveal_strlit("scan");
    reveal_strlit("save");
    reveal_strlit("filter");
    reveal_strlit("export");
    reveal_strlit("autoclose");
    reveal_strlit("--headless");
    reveal_strlit("--console");
    assert("help"@.len() == 4 && "load"@.len() == 4 && "scan"@.len() == 4 && "save"@.len() == 4
        && "filter"@.len() == 6 && "export"@.len() == 6 && "autoclose"@.len() == 9);
    assert("--headless"@.len() == 10 && "--console"@.len() == 9 && "--console"@[0] == '-'
        && "autoclose"@[0] == 'a');
    assert("load"@[0] == 'l' && "help"@[0] == 'h' && "scan"@[1] == 'c' && "save"@[1] == 'a');
    assert("filter"@[0] == 'f' && "export"@[0] == 'e');
    let t = text::texts(args@);
    assert(t[0] == args@[0]@);
    if args@.len() > 2 {
        assert(t[2] == args@[2]@);
    }
}

/// A filter without conditions is empty.
pub proof fn law_empty_filters(f: Filter, r: bool)
    requires
        call_ensures(Filter::empty, (), f),
        call_ensures(Filter::is_empty, (&f,), r),
    ensures
        r,
        f@.warnings.len() == 0,
{
}

/// What is judged is what passes: the nodes that pass are visible, those above them
/// dimmed, and all others hidden.
pub proof fn law_compute_verdicts(
    tree: &Tree,
    root: NodeId,
    f: &Filter,
    now: FileTime,
    v: Vec<FilterVerdict>,
    x: NodeId,
)
    requires
        tree@.wf(),
        tree@.root is Some,
        tree@.live(root),
        f@.conditions.len() > 0,
        tree@.within(x, root),
        call_ensures(verdicts::compute_verdicts, (tree, root, f, now), v),
    ensures
        x < v@.len(),
        v@[x as int] == FilterVerdict::Visible <==> filter::passes(f@.conditions, tree@, x, now),
        v@[x as int] == FilterVerdict::Dimmed <==> !filter::passes(f@.conditions, tree@, x, now)
            && exists|y: NodeId| #[trigger]
            tree@.within(y, x) && y != x && filter::passes(f@.conditions, tree@, y, now),
{
}

/// After a change of the filter or of the tree, outside of scans, the verdicts of a
/// view are those of its filter; nothing else of it changes.
pub proof fn law_sync(v: &mut ScanView, now_ms: u64, now: FileTime, x: NodeId)
    requires
        old(v).wf(),
        old(v).state().root is Some,
        old(v).verdicts_dirty,
        !old(v).scanning,
        old(v).state().within(x, old(v).root),
        call_ensures(ScanView::sync, (v, now_ms, now), ()),
    ensures
        final(v).filter_cache is Some,
        !final(v).verdicts_dirty,
        final(v).zoom == old(v).zoom,
        final(v).selected == old(v).selected,
        final(v).state() == old(v).state(),
        final(v).filter_text == old(v).filter_text,
        (final(v).filter_cache->0).1@.conditions.len() > 0 ==> x < final(v).verdicts@.len() && (
        final(v).verdicts@[x as int] == FilterVerdict::Visible <==> filter::passes(
            (final(v).filter_cache->0).1@.conditions,
            old(v).state(),
            x,
            now,
        )),
        (final(v).filter_cache->0).1@.conditions.len() == 0 ==> final(v).verdicts@.len() == 0,
{
}

/// A view with nothing to judge anew stays as it is.
pub proof fn law_sync_at_rest(v: &mut ScanView, now_ms: u64, now: FileTime)
    requires
        old(v).wf(),
        !old(v).verdicts_dirty,
        old(v).filter_cache is Some,
        (old(v).filter_cache->0).0@ == old(v).filter_text@,
        call_ensures(ScanView::sync, (v, now_ms, now), ()),
    ensures
        *final(v) == *old(v),
{
}

/// An animation starts when it is first shown and keeps that start.
pub proof fn law_begin_anim(v: &mut ScanView, now: u64)
    requires
        call_ensures(ScanView::begin_anim, (v, now), ()),
    ensures
        old(v).anim is None ==> *final(v) == *old(v),
        old(v).anim matches Some(a) ==> (a.start is None ==> final(v).anim is Some && (
        final(v).anim->0).start == Some(now) && (final(v).anim->0).kind == a.kind),
        old(v).anim matches Some(a) ==> (a.start is Some ==> final(v).anim == old(v).anim),
        final(v).zoom == old(v).zoom,
{
}

/// A dropped subtree is no longer selected or shown; what lies elsewhere stays.
pub proof fn law_drop_subtree(v: &mut ScanView, id: NodeId)
    requires
        old(v).wf(),
        old(v).state().live(id),
        call_ensures(ScanView::drop_subtree, (v, id), ()),
    ensures
        final(v).root == old(v).root,
        !old(v).state().within(old(v).zoom, id) ==> final(v).zoom == old(v).zoom,
        old(v).state().within(old(v).zoom, id) && old(v).state().nodes[id as int].parent is Some
            ==> Some(final(v).zoom) == old(v).state().nodes[id as int].parent,
        old(v).selected matches Some(x) ==> (old(v).state().within(x, id)
            ==> final(v).selected is None),
        old(v).selected matches Some(x) ==> (!old(v).state().within(x, id) ==> final(v).selected
            == Some(x)),
        final(v).verdicts_dirty,
        final(v).filter_text == old(v).filter_text,
{
}

/// A problem of a scan leaves the tree of a view and all that it shows.
pub proof fn law_view_takes_problems(v: &mut ScanView, e: ScanEvent)
    requires
        old(v).wf(),
        e is Error,
        call_ensures(ScanView::apply_scan_event, (v, e), ()),
    ensures
        final(v).state() == old(v).state(),
        final(v).root == old(v).root,
        final(v).zoom == old(v).zoom,
        final(v).verdicts_dirty == old(v).verdicts_dirty,
{
}

/// An entry whose scan starts runs it uncancelled under the path that was given; one
/// whose scan is about to be replaced has it cancelled and no longer watches.
pub proof fn law_scan_started(e: &mut ViewEntry, path: String, fresh: bool)
    requires
        old(e).view.wf(),
        call_ensures(ViewEntry::scan_started, (e, path, fresh), ()),
    ensures
        final(e).scan is Some,
        !(final(e).scan->0).cancel,
        !(final(e).scan->0).pause,
        final(e).ever_scanned,
        final(e).open == old(e).open,
        !fresh ==> final(e).view.scan_path@ == path@ && final(e).view.scanning && final(e).view.state() == old(e).view.state() && final(e).pending_fresh == old(e).pending_fresh,
        fresh && old(e).view.state().root is Some ==> final(e).pending_fresh && final(e).view.state() == old(e).view.state(),
        fresh && old(e).view.state().root is None ==> !final(e).pending_fresh,
{
}

/// Before a new scan starts, the one that runs is cancelled and watching ends.
pub proof fn law_prepare_scan(e: &mut ViewEntry)
    requires
        call_ensures(ViewEntry::prepare_scan, (e,), ()),
    ensures
        old(e).scan is Some ==> final(e).scan is Some && (final(e).scan->0).cancel,
        old(e).scan is None ==> final(e).scan is None,
        !final(e).watching,
        final(e).watch_notice is None,
        final(e).view == old(e).view,
{
}

/// A view shows a scan exactly while its entry has one.
pub proof fn law_settle(e: &mut ViewEntry)
    requires
        old(e).view.wf(),
        call_ensures(ViewEntry::settle, (e,), ()),
    ensures
        final(e).view.scanning <==> old(e).scan is Some,
        final(e).scan == old(e).scan,
        final(e).view.zoom == old(e).view.zoom,
{
}

/// An entry of a finished view is open, scans nothing and counts as scanned.
pub proof fn law_completed(v: ScanView, e: ViewEntry)
    requires
        v.wf(),
        call_ensures(ViewEntry::completed, (v,), e),
    ensures
        e.view == v,
        e.open,
        e.ever_scanned,
        e.scan is None,
        !e.watching,
        !e.pending_fresh,
{
}

/// Elements that stand for no node: free space with the bytes that are free, and what
/// is not yet scanned with the bytes that are missing.
pub proof fn law_pseudo_cells(
    v: &ScanView,
    free: (&'static str, Rgb, u64),
    rest: (&'static str, Rgb, u64),
)
    requires
        call_ensures(treemap::pseudo_cell, (v, FREE_SPACE_ID), free),
        call_ensures(treemap::pseudo_cell, (v, UNKNOWN_SPACE_ID), rest),
    ensures
        free.0@ == "Free space"@,
        free.1 == v.flat_colors.free_space,
        v.drive_space matches Some(ds) ==> free.2 == ds.free,
        rest.0@ == "Not yet scanned"@,
        rest.1 == v.flat_colors.unknown_space,
        rest.2 == v.unknown(),
{
}

/// What is said about an element starts with its name, its path and its sizes, the
/// logical one before the allocated one.
pub proof fn law_tooltip(v: &ScanView, id: NodeId, lines: Vec<String>)
    requires
        v.wf(),
        v.state().live(id),
        call_ensures(treemap::tooltip, (v, id), lines),
    ensures
        lines@.len() >= 4,
        lines@[0]@ == v.state().nodes[id as int].name@,
        lines@[1]@ == v.state().path_to(id),
        lines@[2]@ == "Logical size: "@ + crate::sizes::bytes_text(
            v.state().nodes[id as int].agg_logical as nat,
        ),
        lines@[3]@ == "On-disk size: "@ + crate::sizes::bytes_text(
            v.state().nodes[id as int].agg_allocated as nat,
        ),
{
    treemap::law_tooltip_lines(v.state(), id);
    let ls = text::texts(lines@);
    assert(ls.len() == lines@.len());
    assert(ls[0] == lines@[0]@ && ls[1] == lines@[1]@ && ls[2] == lines@[2]@ && ls[3]
        == lines@[3]@);
}

/// The word of each kind of node.
pub proof fn law_kind_str(kind: NodeKind, word: &'static str)
    requires
        call_ensures(export::kind_str, (kind,), word),
    ensures
        kind == NodeKind::File <==> word@ == "file"@,
        kind == NodeKind::Directory <==> word@ == "directory"@,
        kind == NodeKind::Ads <==> word@ == "ads"@,
        kind == NodeKind::FreeSpace <==> word@ == "free_space"@,
        kind == NodeKind::UnknownSpace <==> word@ == "unknown_space"@,
        kind == NodeKind::Unaccessible <==> word@ == "unaccessible"@,
{
    export_laws::law_kind_words(kind);
}

/// Children are sorted so that none is larger than one before it, by the size that is
/// asked for.
pub proof fn law_sorted_children(
    tree: &Tree,
    p: NodeId,
    mode: SizeMode,
    out: Vec<NodeId>,
    i: int,
    j: int,
)
    requires
        tree@.links(),
        tree@.live(p),
        0 <= i < j < out@.len(),
        call_ensures(export::sorted_children, (tree, p, mode), out),
    ensures
        mode == SizeMode::Allocated ==> tree@.nodes[out@[i] as int].agg_allocated
            >= tree@.nodes[out@[j] as int].agg_allocated,
        mode == SizeMode::Logical ==> tree@.nodes[out@[i] as int].agg_logical
            >= tree@.nodes[out@[j] as int].agg_logical,
{
    export_laws::law_order_by_mode(tree@, p, i, j);
}

/// The document of a tree starts with its root, under its path; a root that is not in
/// the tree is refused.
pub proof fn law_export_json(tree: &Tree, root: NodeId, r: Result<JsonNode, ExportError>)
    requires
        tree@.wf(),
        call_ensures(export::export_json, (tree, root), r),
    ensures
        !tree@.live(root) ==> r == Err::<JsonNode, _>(ExportError::InvalidRoot(root)),
        tree@.live(root) ==> r is Ok && export::json_view(r->Ok_0).name
            == tree@.nodes[root as int].name@ && export::json_view(r->Ok_0).path == tree@.path_to(
            root,
        ) && export::json_view(r->Ok_0).logical_size == tree@.nodes[root as int].agg_logical
            && export::json_view(r->Ok_0).allocated_size
            == tree@.nodes[root as int].agg_allocated,
{
    if tree@.live(root) {
        export_laws::law_document_values(tree@, root, SizeMode::Allocated);
    }
}

/// A child is found by its name: the first of that name.
pub proof fn law_child_named(
    tree: &Tree,
    parent: NodeId,
    name: &String,
    k: int,
    r: Option<NodeId>,
)
    requires
        tree@.links(),
        tree@.live(parent),
        0 <= k < tree@.kids[parent].len(),
        tree@.nodes[tree@.kids[parent][k] as int].name@ == name@,
        forall|i: int|
            0 <= i < k ==> tree@.nodes[#[trigger] tree@.kids[parent][i] as int].name@ != name@,
        call_ensures(snapshot::child_named, (tree, parent, name), r),
    ensures
        r == Some(tree@.kids[parent][k]),
{
    snapshot::lemma_first_named(tree@, tree@.kids[parent], name@, k);
}

/// A time in two halves is that of the number whose upper bits are the first half.
pub proof fn law_filetime_halves(high: u32, low: u32, ft: FileTime)
    requires
        high < 0x8000_0000,
        call_ensures(mft::filetime_to_i64, (high, low), ft),
    ensures
        ft == high * 4_294_967_296 + low,
{
}

/// A buffer of records that is read tells in its first eight bytes where the next one
/// starts; a shorter one is refused.
pub proof fn law_parse_buffer(buf: &[u8], r: Result<(u64, Vec<UsnRecord>, usize), UsnParseError>)
    requires
        call_ensures(usn::parse_buffer, (buf,), r),
    ensures
        r is Ok <==> buf@.len() >= 8,
        r matches Ok((next, _, _)) ==> next == bytes::unle(buf@.subrange(0, 8)),
{
}

} // verus!
