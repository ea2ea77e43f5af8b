//! Exports of a view, and snapshots of it.
use vstd::prelude::*;
use vstd::string::*;

use crate::builder;
use crate::export;
use crate::export::{ExportOptions, JsonNode};
use crate::export_error::ExportError;
use crate::model::State;
use crate::scan;
use crate::scan::ScanSummary;
use crate::snapshot;
use crate::snapshot::{ScanMetadata, Snapshot};
use crate::snapshot_format::{MetaView, SnapshotError, SnapshotView};
use crate::template;
use crate::template::{ExportTemplate, TemplateContext, TemplateView};
use crate::template_grammar;
use crate::text;
use crate::time;
use crate::view::ScanView;
use crate::FileTime;
use crate::NodeId;

verus! {

/// What a view can be exported as.
#[derive(Clone, Copy, PartialEq, Eq, Debug, Structural)]
pub enum ExportKind {
    /// A report by one of the templates that come with the library.
    Template(usize),
    Csv,
    Json,
}

/// The template with a number; any other number stands for the first.
pub open spec fn template_at(i: usize) -> TemplateView {
    if i == 1 {
        template::plain_view()
    } else {
        template::grouped_view()
    }
}

impl ExportKind {
    /// What the menu calls it.
    pub open spec fn label_of(self) -> Seq<char> {
        match self {
            ExportKind::Template(i) => if i < 2 {
                "Template: "@ + template_at(i).name
            } else {
                "Template"@
            },
            ExportKind::Csv => "CSV"@,
            ExportKind::Json => "JSON"@,
        }
    }

    /// What the menu calls it.
    pub fn label(&self) -> (s: String)
        ensures
            s@ == self.label_of(),
    {
        match *self {
            ExportKind::Template(i) => {
                let all = template::builtin_templates();
                if i < all.len() {
                    let mut s = "Template: ".to_owned();
                    s.append(all[i].name.as_str());
                    s
                } else {
                    "Template".to_owned()
                }
            },
            ExportKind::Csv => "CSV".to_owned(),
            ExportKind::Json => "JSON".to_owned(),
        }
    }

    /// The ending of a file of its kind.
    pub fn extension(&self) -> (s: &'static str)
        ensures
            s@ == match *self {
                ExportKind::Template(_) => "txt"@,
                ExportKind::Csv => "csv"@,
                ExportKind::Json => "json"@,
            },
    {
        match *self {
            ExportKind::Template(_) => "txt",
            ExportKind::Csv => "csv",
            ExportKind::Json => "json",
        }
    }
}

/// The filter that a report of a view states: none if there is no text.
pub open spec fn stated_filter(v: &ScanView) -> Option<Seq<char>> {
    if v.filter_text@.len() == 0 {
        None
    } else {
        Some(v.filter_text@)
    }
}

fn template_for(i: usize) -> (t: ExportTemplate)
    ensures
        t@ == template_at(i),
{
    if i == 1 {
        ExportTemplate::plain_list()
    } else {
        ExportTemplate::grouped_by_folder()
    }
}

/// Whether an export of a view ended with `r`, and made `new` of the bytes that
/// were there before. There is nothing to export in a view without nodes.
pub open spec fn exported(
    view: &ScanView,
    kind: ExportKind,
    now: FileTime,
    bytes: Seq<u8>,
    new: Seq<u8>,
    r: Result<Option<JsonNode>, ExportError>,
) -> bool {
    let s = view.state();
    let zoom = view.zoom;
    if !s.live(zoom) {
        r matches Err(e) && e == ExportError::InvalidRoot(zoom) && new == bytes
    } else {
        match kind {
            ExportKind::Template(i) => {
                let (written, mistake) = template::report(
                    s,
                    zoom,
                    template_at(i),
                    stated_filter(view),
                    now,
                );
                &&& new == bytes + written
                &&& match r {
                    Ok(doc) => mistake is None && doc is None,
                    Err(ExportError::Template(e)) => mistake == Some(
                        (template_grammar::section_of(e), template_grammar::mistake(e)),
                    ),
                    Err(_) => false,
                }
            },
            ExportKind::Csv => {
                &&& r matches Ok(doc) && doc is None
                &&& new == bytes + export::csv_file(s, zoom, view.size_mode)
            },
            ExportKind::Json => {
                &&& r matches Ok(Some(doc)) && export::json_view(doc) == export::json_doc(
                    s,
                    zoom,
                    view.size_mode,
                )
                &&& new == bytes
            },
        }
    }
}

/// Exports the zoomed subtree of a view. Reports and tables are appended to
/// `out`; a document is handed back.
pub fn export_view(view: &ScanView, kind: &ExportKind, now: FileTime, out: &mut Vec<u8>) -> (r: Result<
    Option<JsonNode>,
    ExportError,
>)
    requires
        view.wf(),
    ensures
        exported(view, *kind, now, old(out)@, final(out)@, r),
{
    let options = ExportOptions { size_mode: view.size_mode };
    match *kind {
        ExportKind::Template(i) => {
            let t = template_for(i);
            let filter = if view.filter_text.as_str().unicode_len() == 0 {
                None
            } else {
                Some(view.filter_text.as_str())
            };
            let context = TemplateContext { filter, now };
            match template::render_template(view.tree(), view.zoom, &t, &context, out) {
                Ok(()) => Ok(None),
                Err(e) => Err(e),
            }
        },
        ExportKind::Csv => match export::export_csv_with(view.tree(), view.zoom, options, out) {
            Ok(()) => Ok(None),
            Err(e) => Err(e),
        },
        ExportKind::Json => match export::export_json_with(view.tree(), view.zoom, options) {
            Ok(doc) => Ok(Some(doc)),
            Err(e) => Err(e),
        },
    }
}

/// The file time of milliseconds since 1970, in whole seconds.
pub open spec fn whole_seconds(ms: int) -> FileTime {
    ((if ms < 0 {
        0
    } else {
        ms / 1000
    }) * time::TICKS_PER_SECOND + time::UNIX_EPOCH_TICKS) as FileTime
}

/// What a snapshot of a view says of its scan, which has just ended if it has
/// ended: nothing is known of its times while it runs, and nothing of the volume.
pub open spec fn view_meta(v: &ScanView, tool_version: Seq<char>, now_ms: u64) -> MetaView {
    MetaView {
        tool_version,
        volume_serial: 0,
        started: match v.summary {
            Some(s) => whole_seconds(now_ms - s.elapsed_ms),
            None => 0,
        },
        finished: match v.summary {
            Some(_) => whole_seconds(now_ms as int),
            None => 0,
        },
    }
}

/// The last millisecond of which a file time can be made.
pub const LAST_MS: u64 = 910_692_730_085_000;

fn scan_metadata(view: &ScanView, tool_version: &str, now_ms: u64) -> (m: ScanMetadata)
    requires
        now_ms <= LAST_MS,
    ensures
        m@ == view_meta(view, tool_version@, now_ms),
{
    let (started, finished): (FileTime, FileTime) = match &view.summary {
        Some(s) => {
            let start: u64 = if s.elapsed_ms > now_ms {
                0
            } else {
                now_ms - s.elapsed_ms
            };
            (
                time::filetime_from_unix((start / 1000) as i64),
                time::filetime_from_unix((now_ms / 1000) as i64),
            )
        },
        None => (0, 0),
    };
    ScanMetadata { tool_version: tool_version.to_owned(), volume_serial: 0, started, finished }
}

/// The names from below the root of a tree down to a node.
pub open spec fn zoom_names(s: State, zoom: NodeId) -> Seq<Seq<char>> {
    s.names_to(zoom).drop_first()
}

/// What a snapshot of a view holds: the tree with its tags, the filter, where it
/// is zoomed to, and its scan.
pub open spec fn view_snapshot(v: &ScanView, tool_version: Seq<char>, now_ms: u64) -> SnapshotView {
    SnapshotView {
        tree: Some(v.state().data(v.state().root->0)),
        filter: v.filter_text@,
        zoom_path: zoom_names(v.state(), v.zoom),
        meta: view_meta(v, tool_version, now_ms),
    }
}

/// Whether saving a view ended with `r`, and made `new` of the bytes that were
/// there before.
pub open spec fn saved(
    view: &ScanView,
    tool_version: Seq<char>,
    now_ms: u64,
    bytes: Seq<u8>,
    new: Seq<u8>,
    r: Result<(), SnapshotError>,
) -> bool {
    match snapshot::encoding(view_snapshot(view, tool_version, now_ms)) {
        Ok(b) => r is Ok && new == bytes + b,
        Err(e) => r == Err::<(), _>(e) && new == bytes,
    }
}

/// Appends a snapshot of a view to `out`.
pub fn save_snapshot(view: &ScanView, tool_version: &str, now_ms: u64, out: &mut Vec<u8>) -> (r: Result<
    (),
    SnapshotError,
>)
    requires
        view.wf(),
        view.state().root is Some,
        now_ms <= LAST_MS,
    ensures
        saved(view, tool_version@, now_ms, old(out)@, final(out)@, r),
{
    let ghost s = view.state();
    let meta = scan_metadata(view, tool_version, now_ms);
    let mut snap = Snapshot::new(view.tree().clone(), meta);
    snap.filter = view.filter_text.clone();
    let ids = view.tree().trail(view.zoom);
    let mut names: Vec<String> = Vec::new();
    proof {
        s.lemma_trail(view.zoom, s.depth[view.zoom]);
    }
    for i in 1..ids.len()
        invariant
            s == view.state(),
            view.wf(),
            s.root is Some,
            ids@ == s.trail_to(view.zoom, s.depth[view.zoom]),
            ids@.len() >= 1,
            forall|j: int|
                0 <= j < ids@.len() ==> s.live(#[trigger] ids@[j]) && ids@[j] < s.nodes.len(),
            names@.len() == i - 1,
            forall|j: int| 0 <= j < names@.len() ==> (#[trigger] names@[j])@ == s.nodes[ids@[j + 1]
                as int].name@,
    {
        names.push(view.tree().node(ids[i]).name.clone());
    }
    proof {
        assert(text::texts(names@) =~= zoom_names(s, view.zoom));
    }
    snap.zoom_path = names;
    proof {
        assert(snap@ =~= view_snapshot(view, tool_version@, now_ms));
    }
    snap.write_to(out)
}

/// Whether `v` shows a tree loaded from the file `source`: a fresh view of the
/// whole tree, under the saved filter, zoomed to the saved node or else to the
/// root.
pub open spec fn loaded(
    v: ScanView,
    s: State,
    root: NodeId,
    filter: Seq<char>,
    zoom_path: Seq<Seq<char>>,
    source: Seq<char>,
) -> bool {
    &&& v.wf()
    &&& v.state() == s
    &&& v.builder@.orphans == 0
    &&& builder::indexes(s, v.builder@.dirs)
    &&& v.root == root
    &&& v.scan_path@ == s.nodes[root as int].name@
    &&& v.summary matches Some(m) && m@ == scan::no_summary(Seq::empty())
    &&& !v.scanning
    &&& v.zoom == match snapshot::descend(s, root, zoom_path) {
        Some(id) => id,
        None => root,
    }
    &&& v.filter_text@ == filter
    &&& v.snapshot_source matches Some(p) && p@ == source
    &&& fresh_but(v)
}

/// Whether a view is fresh but for its zoom, its filter and its source.
pub open spec fn fresh_but(v: ScanView) -> bool {
    exists|p: ScanView| #[trigger]
        p.starts_plain() && v == (ScanView {
            zoom: v.zoom,
            filter_text: v.filter_text,
            snapshot_source: v.snapshot_source,
            ..p
        })
}

/// A view of a snapshot, which is not scanned any more.
pub fn view_from_snapshot(snap: Snapshot, source: &str) -> (r: Result<ScanView, SnapshotError>)
    requires
        snap.tree@.wf(),
    ensures
        match snap.tree@.root {
            None => r matches Err(e) && e == SnapshotError::EmptyTree,
            Some(root) => r matches Ok(v) && loaded(
                v,
                snap.tree@,
                root,
                snap.filter@,
                text::texts(snap.zoom_path@),
                source@,
            ),
        },
{
    let root: NodeId = match snap.tree.root() {
        Some(root) => root,
        None => {
            return Err(SnapshotError::EmptyTree);
        },
    };
    proof {
        assert(snap.tree@.node_ok(root));
    }
    let zoom = snap.zoom_root();
    let scan_path = snap.tree.node(root).name.clone();
    let summary = ScanSummary::for_root(String::new());
    let mut view = ScanView::new(snap.tree, root, scan_path, summary);
    let ghost plain = view;
    view.filter_text = snap.filter;
    view.snapshot_source = Some(source.to_owned());
    if let Some(id) = zoom {
        view.zoom_to_silent(id);
    }
    proof {
        assert(plain.starts_plain());
        assert(fresh_but(view));
    }
    Ok(view)
}

/// Loads a snapshot file as a view. The nodes are numbered in the order of
/// their records.
pub fn load_snapshot(bytes: &[u8], source: &str) -> (r: Result<ScanView, SnapshotError>)
    ensures
        match snapshot::decoding(bytes@) {
            Err(e) => r matches Err(f) && f == e,
            Ok(w) => match w.tree {
                None => r matches Err(f) && f == SnapshotError::EmptyTree,
                Some(data) => {
                    &&& r is Ok
                    &&& r->Ok_0.state().numbered()
                    &&& r->Ok_0.state().data(0) == data
                    &&& loaded(r->Ok_0, r->Ok_0.state(), 0, w.filter, w.zoom_path, source@)
                },
            },
        },
{
    match Snapshot::read_from(bytes) {
        Ok(snap) => view_from_snapshot(snap, source),
        Err(e) => Err(e),
    }
}

/// What is saved about a scan: when it ended, in whole seconds, and when it started,
/// earlier by the time that it took; nothing where the scan is not over.
pub proof fn law_saved_times(v: &ScanView, tool_version: Seq<char>, now_ms: u64)
    requires
        now_ms <= LAST_MS,
    ensures
        ({
            let m = view_meta(v, tool_version, now_ms);
            &&& m.tool_version == tool_version
            &&& v.summary is None ==> m.started == 0 && m.finished == 0
            &&& v.summary is Some ==> m.finished == (now_ms as int / 1000) * 10_000_000
                + 116_444_736_000_000_000
            &&& v.summary is Some && (v.summary->0).elapsed_ms <= now_ms ==> m.started == ((now_ms
                - (v.summary->0).elapsed_ms) / 1000) * 10_000_000 + 116_444_736_000_000_000
        }),
{
}

/// What is saved of a view is its whole tree, its filter and the way to the zoomed
/// node.
pub proof fn law_saved_view(v: &ScanView, tool_version: Seq<char>, now_ms: u64)
    ensures
        ({
            let s = view_snapshot(v, tool_version, now_ms);
            &&& s.filter == v.filter_text@
            &&& s.tree == Some(v.state().data(v.state().root->0))
            &&& s.zoom_path == v.state().names_to(v.zoom).drop_first()
        }),
{
}

/// Exports of a view start at the zoomed node; tables and documents are sorted by
/// the size that the view shows.
pub proof fn law_exports_of_view(
    v: &ScanView,
    now: FileTime,
    bytes: Seq<u8>,
    new: Seq<u8>,
    r: Result<Option<JsonNode>, ExportError>,
)
    requires
        v.state().live(v.zoom),
    ensures
        exported(v, ExportKind::Csv, now, bytes, new, r) && v.size_mode
            == crate::export::SizeMode::Logical ==> new == bytes + export::csv_file(
            v.state(),
            v.zoom,
            crate::export::SizeMode::Logical,
        ),
        exported(v, ExportKind::Csv, now, bytes, new, r) && v.size_mode
            == crate::export::SizeMode::Allocated ==> new == bytes + export::csv_file(
            v.state(),
            v.zoom,
            crate::export::SizeMode::Allocated,
        ),
        exported(v, ExportKind::Json, now, bytes, new, r) ==> new == bytes && r is Ok && r->Ok_0
            is Some && export::json_view(r->Ok_0->0) == export::json_doc(
            v.state(),
            v.zoom,
            v.size_mode,
        ),
        exported(v, ExportKind::Template(1), now, bytes, new, r) && r is Ok ==> new == bytes
            + template::report(
            v.state(),
            v.zoom,
            template::plain_view(),
            if v.filter_text@.len() == 0 {
                None
            } else {
                Some(v.filter_text@)
            },
            now,
        ).0,
{
}

/// The kinds of exports by their labels and the ends of their files' names.
pub proof fn law_export_kinds(kind: &ExportKind, label: String, ext: &'static str)
    requires
        call_ensures(ExportKind::label, (kind,), label),
        call_ensures(ExportKind::extension, (kind,), ext),
    ensures
        *kind == ExportKind::Csv ==> label@ == "CSV"@ && ext@ == "csv"@,
        *kind == ExportKind::Json ==> label@ == "JSON"@ && ext@ == "json"@,
        *kind == ExportKind::Template(0) ==> label@ == "Template: "@ + "Grouped by folder"@ && ext@
            == "txt"@,
        *kind == ExportKind::Template(1) ==> label@ == "Template: "@ + "Plain list"@ && ext@
            == "txt"@,
{
}

/// A view that is loaded shows the saved tree at the saved place with the saved
/// filter, and knows where it comes from.
pub proof fn law_loaded_view(
    v: ScanView,
    s: State,
    root: NodeId,
    filter: Seq<char>,
    zoom_path: Seq<Seq<char>>,
    source: Seq<char>,
)
    requires
        loaded(v, s, root, filter, zoom_path, source),
    ensures
        v.state() == s,
        v.root == root,
        v.filter_text@ == filter,
        !v.scanning,
        v.snapshot_source is Some && (v.snapshot_source->0)@ == source,
        zoom_path.len() == 0 ==> v.zoom == root,
        snapshot::descend(s, root, zoom_path) is Some ==> Some(v.zoom) == snapshot::descend(
            s,
            root,
            zoom_path,
        ),
        snapshot::descend(s, root, zoom_path) is None ==> v.zoom == root,
{
}

} // verus!
