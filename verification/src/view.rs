//! A view of a scanned tree: what is shown of it, and what the user has done.
//!
//! A view holds the tree, which a scan fills while it runs, where it is zoomed
//! to and where it was before, the selection, the filter and what it makes of
//! the nodes. Times are milliseconds of some clock that only goes forward.
use vstd::prelude::*;
use vstd::string::*;

use crate::builder;
use crate::builder::{BuilderView, TreeBuilder};
use crate::defaults;
use crate::defaults::{ClassStyle, FlatColors, Palette, Rgb};
use crate::diskspace;
use crate::diskspace::DiskSpace;
use crate::export::SizeMode;
use crate::filter::{Filter, FilterVerdict};
use crate::filter_ast;
use crate::filter_ast::{FileClass, ParseWarning};
use crate::filter_grammar;
use crate::filter_parse;
use crate::model::State;
use crate::node::{Node, NodeKind, NodeParams, Tag};
use crate::paths;
use crate::scan::{ScanEvent, ScanProgress, ScanSummary, Upsert, UpsertView};
use crate::snapshot;
use crate::text;
use crate::tree::Tree;
use crate::verdicts;
use crate::visit;
use crate::FileTime;
use crate::NodeId;

verus! {

/// How the elements of a view are coloured.
#[derive(Clone, Copy, PartialEq, Eq, Debug, Structural)]
pub enum ColorStyle {
    /// By their kind.
    Flat,
    /// Files by their class.
    FileClasses,
}

impl Default for ColorStyle {
    fn default() -> (s: Self)
        ensures
            s == ColorStyle::Flat,
    {
        ColorStyle::Flat
    }
}

/// What stands for the free space of a drive in place of a node.
pub const FREE_SPACE_ID: NodeId = 0xFFFF_FFFE;

/// What stands for the space of a drive not yet scanned in place of a node.
pub const UNKNOWN_SPACE_ID: NodeId = 0xFFFF_FFFF;

/// How long a changed element flashes.
pub const FLASH_MS: u64 = 700;

/// How long a layout is kept while a scan runs.
pub const LAYOUT_TICK_MS: u64 = 250;

/// How long verdicts are kept while a scan runs.
pub const VERDICT_TICK_MS: u64 = 500;

/// How long the space of a drive is kept.
pub const DISKSPACE_TICK_MS: u64 = 2000;

/// How many changed nodes are remembered.
pub const MAX_CHANGED: usize = 4096;

/// The least and the greatest depth that can be shown.
pub const MIN_DISPLAY_DEPTH: u32 = 1;

pub const MAX_DISPLAY_DEPTH: u32 = 8;

/// A rectangle, in hundredths of a point.
#[derive(Clone, Copy, PartialEq, Eq, Debug, Structural)]
pub struct CellRect {
    pub x: i32,
    pub y: i32,
    pub w: i32,
    pub h: i32,
}

/// Where a change of zoom starts from.
#[derive(Clone, Copy, PartialEq, Eq, Debug, Structural)]
pub enum AnimKind {
    /// From this rectangle of the old layout.
    FromRect(CellRect),
    /// From where this node is in the new layout.
    FromNode(NodeId),
}

/// A change of zoom that is shown.
#[derive(Clone, Copy, PartialEq, Eq, Debug)]
pub struct AnimState {
    pub kind: AnimKind,
    /// When it started; nothing until the new layout is first shown.
    pub start: Option<u64>,
}

/// A change of the file system that was noticed.
#[derive(Debug, PartialEq, Eq)]
pub enum WatchEvent {
    /// Something is there, new or changed.
    Upsert(String),
    /// Something is gone.
    Remove(String),
    /// Anything below may have changed.
    SubtreeDirty(String),
}

/// What came of a change of the file system.
#[derive(Debug, PartialEq, Eq)]
pub enum WatchOutcome {
    /// The tree was changed.
    Applied,
    /// It does not concern this tree.
    Ignored,
    /// A subtree is to be scanned anew.
    RescanSubtree(String),
    /// All is to be scanned anew.
    RescanFull,
}

/// What came of a change, in mathematical terms.
pub enum OutcomeView {
    Applied,
    Ignored,
    RescanSubtree(Seq<char>),
    RescanFull,
}

impl View for WatchOutcome {
    type V = OutcomeView;

    open spec fn view(&self) -> OutcomeView {
        match *self {
            WatchOutcome::Applied => OutcomeView::Applied,
            WatchOutcome::Ignored => OutcomeView::Ignored,
            WatchOutcome::RescanSubtree(p) => OutcomeView::RescanSubtree(p@),
            WatchOutcome::RescanFull => OutcomeView::RescanFull,
        }
    }
}

/// A view of a scanned tree.
pub struct ScanView {
    pub builder: TreeBuilder,
    /// The node where the scan started.
    pub root: NodeId,
    /// The node that fills the view.
    pub zoom: NodeId,
    /// Where the view was zoomed to before, the last one last.
    pub back: Vec<NodeId>,
    /// Where the view was zoomed to before it went back, the last one last.
    pub forward: Vec<NodeId>,
    pub selected: Option<NodeId>,
    /// The path that is scanned.
    pub scan_path: String,
    /// The file of the snapshot that the view was loaded from.
    pub snapshot_source: Option<String>,
    /// How the scan ended; nothing while it runs.
    pub summary: Option<ScanSummary>,
    pub progress: ScanProgress,
    pub scanning: bool,
    pub filter_text: String,
    /// Which size areas stand for.
    pub size_mode: SizeMode,
    pub color_style: ColorStyle,
    /// Whether what the filter leaves out is not shown at all.
    pub hard_hide_filtered: bool,
    pub class_styles: Vec<ClassStyle>,
    pub flat_colors: FlatColors,
    /// The colours of the tags: red, yellow, green, blue.
    pub tag_colors: [Rgb; 4],
    /// By how many per cent of its brightness an element changes from level to
    /// level.
    pub level_contrast: u32,
    /// The filter and the text that it was read from.
    pub filter_cache: Option<(String, Filter)>,
    /// What the filter makes of the nodes; nothing if all are visible.
    pub verdicts: Vec<FilterVerdict>,
    pub verdicts_dirty: bool,
    pub last_verdict_pass: Option<u64>,
    pub flash_enabled: bool,
    /// Until when each node flashes; zero if it does not.
    pub flash_until: Vec<u64>,
    /// The nodes that changed since the view was last shown.
    pub changed: Vec<NodeId>,
    pub show_free_space: bool,
    pub show_unknown: bool,
    /// Whether a whole drive is scanned.
    pub is_drive_view: bool,
    pub drive_space: Option<DiskSpace>,
    pub drive_space_fetched: Option<u64>,
    /// How many levels are shown.
    pub display_depth: u32,
    /// How long a change of zoom takes.
    pub zoom_anim_ms: u64,
    pub anim: Option<AnimState>,
    /// Counts what changes the layout.
    pub layout_epoch: u64,
    /// Counts what changes the tree.
    pub model_epoch: u64,
    /// Whether the next layout is to sort all elements.
    pub resort_once: bool,
}

/// Whether all of some nodes are in a tree.
pub open spec fn all_live(s: State, ids: Seq<NodeId>) -> bool {
    forall|i: int| 0 <= i < ids.len() ==> s.live(#[trigger] ids[i])
}

/// When a node stops flashing, if it flashes.
pub open spec fn flashing(until: Seq<u64>, id: NodeId) -> Option<u64> {
    if id < until.len() && until[id as int] > 0 {
        Some(until[id as int])
    } else {
        None
    }
}

/// Those of some nodes that are not in a subtree, in their order.
pub open spec fn survivors(s: State, ids: Seq<NodeId>, id: NodeId) -> Seq<NodeId>
    decreases ids.len(),
{
    if ids.len() == 0 {
        Seq::empty()
    } else {
        let before = survivors(s, ids.drop_last(), id);
        if s.within(ids.last(), id) {
            before
        } else {
            before.push(ids.last())
        }
    }
}

proof fn lemma_survivors(s: State, ids: Seq<NodeId>, id: NodeId)
    requires
        all_live(s, ids),
    ensures
        forall|i: int|
            0 <= i < survivors(s, ids, id).len() ==> s.live(#[trigger] survivors(s, ids, id)[i])
                && !s.within(survivors(s, ids, id)[i], id),
    decreases ids.len(),
{
    if ids.len() > 0 {
        assert(all_live(s, ids.drop_last())) by {
            assert forall|i: int| 0 <= i < ids.len() - 1 implies s.live(
                #[trigger] ids.drop_last()[i],
            ) by {
                assert(ids.drop_last()[i] == ids[i]);
            }
        }
        lemma_survivors(s, ids.drop_last(), id);
        assert(s.live(ids[ids.len() - 1]));
        let before = survivors(s, ids.drop_last(), id);
        let now = survivors(s, ids, id);
        assert forall|i: int| 0 <= i < now.len() implies s.live(#[trigger] now[i]) && !s.within(
            now[i],
            id,
        ) by {
            if i < before.len() {
                assert(now[i] == before[i]);
            }
        }
    }
}

/// Those of some nodes that are not marked, in their order.
fn unmarked(ids: &Vec<NodeId>, marks: &Vec<bool>, s: Ghost<State>, id: Ghost<NodeId>) -> (r: Vec<
    NodeId,
>)
    requires
        forall|x: NodeId| #[trigger] visit::marked(marks@, x) <==> s@.within(x, id@),
    ensures
        r@ == survivors(s@, ids@, id@),
{
    let mut r: Vec<NodeId> = Vec::new();
    proof {
        assert(ids@.take(0) =~= Seq::empty());
    }
    for i in 0..ids.len()
        invariant
            r@ == survivors(s@, ids@.take(i as int), id@),
            forall|x: NodeId| #[trigger] visit::marked(marks@, x) <==> s@.within(x, id@),
    {
        proof {
            assert(ids@.take(i + 1).drop_last() =~= ids@.take(i as int));
            assert(ids@.take(i + 1).last() == ids@[i as int]);
        }
        if !visit::is_marked(marks, ids[i]) {
            r.push(ids[i]);
        }
    }
    proof {
        assert(ids@.take(ids@.len() as int) =~= ids@);
    }
    r
}

/// Whether the time since `last` is at least `tick`.
pub open spec fn tick_due(last: Option<u64>, now: u64, tick: u64) -> bool {
    match last {
        None => true,
        Some(t) => now >= t && now - t >= tick,
    }
}

fn is_due(last: Option<u64>, now: u64, tick: u64) -> (r: bool)
    ensures
        r == tick_due(last, now, tick),
{
    match last {
        None => true,
        Some(t) => now >= t && now - t >= tick,
    }
}

impl ScanView {
    /// The tree of the view in mathematical terms.
    pub open spec fn state(&self) -> State {
        self.builder@.state
    }

    /// Wherever the view is zoomed to, was or could go is in the tree, and so is
    /// what is selected. Without a tree there is none of these.
    pub open spec fn wf(&self) -> bool {
        &&& self.builder@.wf()
        &&& if self.state().root is Some {
            &&& self.state().live(self.root)
            &&& self.state().live(self.zoom)
            &&& all_live(self.state(), self.back@)
            &&& all_live(self.state(), self.forward@)
            &&& self.selected matches Some(id) ==> self.state().live(id)
        } else {
            &&& self.back@.len() == 0
            &&& self.forward@.len() == 0
            &&& self.selected is None
        }
    }

    /// A view of a complete tree.
    pub fn new(tree: Tree, root: NodeId, scan_path: String, summary: ScanSummary) -> (v: Self)
        requires
            tree@.wf(),
            tree@.live(root),
        ensures
            v.wf(),
            v.state() == tree@,
            v.builder@.orphans == 0,
            builder::indexes(tree@, v.builder@.dirs),
            v.root == root,
            v.zoom == root,
            v.summary == Some(summary),
            !v.scanning,
            v.scan_path@ == scan_path@,
            v.starts_plain(),
    {
        let base = ScanView::for_scan(scan_path);
        ScanView {
            builder: TreeBuilder::from_tree(tree),
            root,
            zoom: root,
            summary: Some(summary),
            scanning: false,
            ..base
        }
    }

    /// What every new view starts with.
    pub open spec fn starts_plain(&self) -> bool {
        &&& self.back@.len() == 0
        &&& self.forward@.len() == 0
        &&& self.selected is None
        &&& self.snapshot_source is None
        &&& self.progress == (ScanProgress {
            entries: 0,
            files: 0,
            dirs: 0,
            logical_bytes: 0,
            allocated_bytes: 0,
        })
        &&& self.filter_text@.len() == 0
        &&& self.size_mode == SizeMode::Allocated
        &&& self.color_style == ColorStyle::Flat
        &&& !self.hard_hide_filtered
        &&& defaults::style_views(self.class_styles@) == defaults::class_styles(
            defaults::class_colors(),
        )
        &&& self.flat_colors == defaults::palette_of(true).flat
        &&& self.tag_colors@ == defaults::palette_of(true).tags
        &&& self.level_contrast == defaults::palette_of(true).level_contrast
        &&& self.filter_cache is None
        &&& self.verdicts@.len() == 0
        &&& self.verdicts_dirty
        &&& self.last_verdict_pass is None
        &&& self.flash_enabled
        &&& self.flash_until@.len() == 0
        &&& self.changed@.len() == 0
        &&& self.show_free_space
        &&& self.show_unknown
        &&& self.is_drive_view == diskspace::volume_root(self.scan_path@)
        &&& self.drive_space is None
        &&& self.drive_space_fetched is None
        &&& self.display_depth == 1
        &&& self.zoom_anim_ms == 150
        &&& self.anim is None
        &&& self.layout_epoch == 0
        &&& self.model_epoch == 0
        &&& !self.resort_once
    }

    /// A view without a tree, which a scan is to fill.
    pub fn for_scan(scan_path: String) -> (v: Self)
        ensures
            v.wf(),
            v.state().root is None,
            v.builder@.orphans == 0,
            v.builder@.dirs.dom() == Set::<Seq<char>>::empty(),
            v.root == 0,
            v.zoom == 0,
            v.summary is None,
            v.scanning,
            v.scan_path@ == scan_path@,
            v.starts_plain(),
    {
        let palette = defaults::palette(true);
        let is_drive_view = diskspace::is_volume_root(scan_path.as_str());
        ScanView {
            builder: TreeBuilder::new(),
            root: 0,
            zoom: 0,
            back: Vec::new(),
            forward: Vec::new(),
            selected: None,
            scan_path,
            snapshot_source: None,
            summary: None,
            progress: ScanProgress {
                entries: 0,
                files: 0,
                dirs: 0,
                logical_bytes: 0,
                allocated_bytes: 0,
            },
            scanning: true,
            filter_text: String::new(),
            size_mode: SizeMode::Allocated,
            color_style: ColorStyle::Flat,
            hard_hide_filtered: false,
            class_styles: defaults::file_class_styles(),
            flat_colors: palette.flat,
            tag_colors: palette.tags,
            level_contrast: palette.level_contrast,
            filter_cache: None,
            verdicts: Vec::new(),
            verdicts_dirty: true,
            last_verdict_pass: None,
            flash_enabled: true,
            flash_until: Vec::new(),
            changed: Vec::new(),
            show_free_space: true,
            show_unknown: true,
            is_drive_view,
            drive_space: None,
            drive_space_fetched: None,
            display_depth: 1,
            zoom_anim_ms: 150,
            anim: None,
            layout_epoch: 0,
            model_epoch: 0,
            resort_once: false,
        }
    }

    /// The tree, as far as it is scanned.
    pub fn tree(&self) -> (tree: &Tree)
        ensures
            tree@ == self.state(),
    {
        self.builder.tree()
    }

    /// Whether there is a tree yet.
    pub fn has_root(&self) -> (r: bool)
        ensures
            r == (self.state().root is Some),
    {
        self.tree().root().is_some()
    }

    /// Navigates to a node.
    pub fn navigate_to(&mut self, id: NodeId)
        requires
            old(self).wf(),
            old(self).state().live(id),
        ensures
            final(self).wf(),
            navigated(old(self), final(self), id, AnimKind::FromNode(old(self).zoom)),
    {
        if id == self.zoom {
            return;
        }
        let from: NodeId = self.zoom;
        self.leave_for(id);
        self.start_anim(AnimKind::FromNode(from));
    }

    /// Zooms into a node that was double-clicked, starting from its rectangle.
    pub fn navigate_from_rect(&mut self, id: NodeId, rect: CellRect)
        requires
            old(self).wf(),
            old(self).state().live(id),
        ensures
            final(self).wf(),
            navigated(old(self), final(self), id, AnimKind::FromRect(rect)),
    {
        if id == self.zoom {
            return;
        }
        self.leave_for(id);
        self.start_anim(AnimKind::FromRect(rect));
    }

    /// Zooms to a node, and remembers where the view was.
    fn leave_for(&mut self, id: NodeId)
        requires
            old(self).wf(),
            old(self).state().live(id),
        ensures
            final(self).wf(),
            final(self).back@ == old(self).back@.push(old(self).zoom),
            final(self).forward@ == Seq::<NodeId>::empty(),
            *final(self) == (ScanView {
                back: final(self).back,
                forward: final(self).forward,
                zoom: id,
                selected: None,
                ..*old(self)
            }),
    {
        let ghost before = self.back@;
        proof {
            assert(self.state().links());
        }
        self.back.push(self.zoom);
        self.forward = Vec::new();
        self.zoom = id;
        self.selected = None;
        proof {
            assert forall|i: int| 0 <= i < self.back@.len() implies self.state().live(
                #[trigger] self.back@[i],
            ) by {
                if i < before.len() {
                    assert(before[i] == self.back@[i]);
                }
            }
        }
    }

    fn start_anim(&mut self, kind: AnimKind)
        ensures
            *final(self) == (ScanView {
                anim: anim_from(old(self).zoom_anim_ms, kind),
                resort_once: true,
                ..*old(self)
            }),
    {
        self.anim = if self.zoom_anim_ms > 0 {
            Some(AnimState { kind, start: None })
        } else {
            None
        };
        self.resort_once = true;
    }

    /// Zooms to a node without a trace.
    pub fn zoom_to_silent(&mut self, id: NodeId)
        requires
            old(self).wf(),
            old(self).state().live(id),
        ensures
            final(self).wf(),
            *final(self) == (ScanView { zoom: id, selected: None, ..*old(self) }),
    {
        proof {
            assert(self.state().links());
        }
        self.zoom = id;
        self.selected = None;
    }

    /// Whether the view was loaded from a snapshot, and so has no link to the
    /// file system.
    pub open spec fn is_loaded(&self) -> bool {
        self.snapshot_source is Some
    }

    /// Whether the view was loaded from a snapshot.
    pub fn from_snapshot(&self) -> (r: bool)
        ensures
            r == self.is_loaded(),
    {
        self.snapshot_source.is_some()
    }

    /// Whether the view was somewhere else before.
    pub fn can_go_back(&self) -> (r: bool)
        ensures
            r == (self.back@.len() > 0),
    {
        self.back.len() > 0
    }

    /// Whether the view went back from somewhere.
    pub fn can_go_forward(&self) -> (r: bool)
        ensures
            r == (self.forward@.len() > 0),
    {
        self.forward.len() > 0
    }

    /// Goes back to where the view was before, if it was anywhere.
    pub fn go_back(&mut self)
        requires
            old(self).wf(),
        ensures
            final(self).wf(),
            went_back(old(self), final(self)),
    {
        if self.back.len() == 0 {
            return;
        }
        let ghost back = self.back@;
        let ghost forward = self.forward@;
        let from: NodeId = self.zoom;
        proof {
            assert(self.state().live(back[back.len() - 1]));
        }
        if let Some(prev) = self.back.pop() {
            self.forward.push(from);
            self.zoom = prev;
            self.selected = None;
            proof {
                assert forall|i: int| 0 <= i < self.back@.len() implies self.state().live(
                    #[trigger] self.back@[i],
                ) by {
                    assert(self.back@[i] == back[i]);
                }
                assert forall|i: int| 0 <= i < self.forward@.len() implies self.state().live(
                    #[trigger] self.forward@[i],
                ) by {
                    if i < forward.len() {
                        assert(self.forward@[i] == forward[i]);
                    }
                }
            }
            self.start_anim(AnimKind::FromNode(from));
        }
    }

    /// Goes forward to where the view went back from, if it did.
    pub fn go_forward(&mut self)
        requires
            old(self).wf(),
        ensures
            final(self).wf(),
            went_forward(old(self), final(self)),
    {
        if self.forward.len() == 0 {
            return;
        }
        let ghost back = self.back@;
        let ghost forward = self.forward@;
        let from: NodeId = self.zoom;
        proof {
            assert(self.state().live(forward[forward.len() - 1]));
        }
        if let Some(next) = self.forward.pop() {
            self.back.push(from);
            self.zoom = next;
            self.selected = None;
            proof {
                assert forall|i: int| 0 <= i < self.forward@.len() implies self.state().live(
                    #[trigger] self.forward@[i],
                ) by {
                    assert(self.forward@[i] == forward[i]);
                }
                assert forall|i: int| 0 <= i < self.back@.len() implies self.state().live(
                    #[trigger] self.back@[i],
                ) by {
                    if i < back.len() {
                        assert(self.back@[i] == back[i]);
                    }
                }
            }
            self.start_anim(AnimKind::FromNode(from));
        }
    }
}

/// Whether `new` is a view that moved: to another zoom, with another past and
/// future. The selection does not move with it.
pub open spec fn moved(
    v: &ScanView,
    new: &ScanView,
    zoom: NodeId,
    back: Seq<NodeId>,
    forward: Seq<NodeId>,
    kind: AnimKind,
) -> bool {
    &&& new.back@ == back
    &&& new.forward@ == forward
    &&& *new == (ScanView {
        back: new.back,
        forward: new.forward,
        zoom,
        selected: None,
        anim: anim_from(v.zoom_anim_ms, kind),
        resort_once: true,
        ..*v
    })
}

/// Whether `new` is a view after a navigation to `id`: it can go back to where
/// it was, and no longer forward. To where it is it does not navigate.
pub open spec fn navigated(v: &ScanView, new: &ScanView, id: NodeId, kind: AnimKind) -> bool {
    if id == v.zoom {
        *new == *v
    } else {
        moved(v, new, id, v.back@.push(v.zoom), Seq::empty(), kind)
    }
}

/// Whether `new` is a view that went back, if it could.
pub open spec fn went_back(v: &ScanView, new: &ScanView) -> bool {
    if v.back@.len() == 0 {
        *new == *v
    } else {
        moved(
            v,
            new,
            v.back@.last(),
            v.back@.drop_last(),
            v.forward@.push(v.zoom),
            AnimKind::FromNode(v.zoom),
        )
    }
}

/// Whether `new` is a view that went forward, if it could.
pub open spec fn went_forward(v: &ScanView, new: &ScanView) -> bool {
    if v.forward@.len() == 0 {
        *new == *v
    } else {
        moved(
            v,
            new,
            v.forward@.last(),
            v.back@.push(v.zoom),
            v.forward@.drop_last(),
            AnimKind::FromNode(v.zoom),
        )
    }
}

/// The change of zoom that is shown, if changes take any time.
pub open spec fn anim_from(zoom_anim_ms: u64, kind: AnimKind) -> Option<AnimState> {
    if zoom_anim_ms > 0 {
        Some(AnimState { kind, start: None })
    } else {
        None
    }
}

impl ScanView {
    /// The node one level above the zoomed one; none where the scan started.
    pub open spec fn above(&self) -> Option<NodeId> {
        if self.zoom == self.root {
            None
        } else {
            self.state().nodes[self.zoom as int].parent
        }
    }

    /// Zooms out one level; where the scan started it stays where it is.
    pub fn zoom_out_one(&mut self)
        requires
            old(self).wf(),
            old(self).state().root is Some,
        ensures
            final(self).wf(),
            match old(self).above() {
                None => *final(self) == *old(self),
                Some(up) => navigated(
                    old(self),
                    final(self),
                    up,
                    AnimKind::FromNode(old(self).zoom),
                ),
            },
    {
        if self.zoom == self.root {
            return;
        }
        proof {
            assert(self.state().node_ok(self.zoom));
        }
        let parent = self.tree().node(self.zoom).parent;
        if let Some(up) = parent {
            proof {
                self.state().lemma_parent(self.zoom, up);
            }
            self.navigate_to(up);
        }
    }

    /// Zooms out to where the scan started.
    pub fn zoom_home(&mut self)
        requires
            old(self).wf(),
            old(self).state().root is Some,
        ensures
            final(self).wf(),
            navigated(
                old(self),
                final(self),
                old(self).root,
                AnimKind::FromNode(old(self).zoom),
            ),
    {
        self.navigate_to(self.root);
    }

    /// The nodes from where the scan started down to the zoomed node; if that
    /// lies elsewhere, from the root of the tree.
    pub open spec fn crumbs(&self) -> Seq<NodeId> {
        let s = self.state();
        s.trail_to(
            self.zoom,
            if s.within(self.zoom, self.root) {
                (s.depth[self.zoom] - s.depth[self.root]) as nat
            } else {
                s.depth[self.zoom]
            },
        )
    }

    /// The nodes from where the scan started down to the zoomed node.
    pub fn breadcrumb(&self) -> (ids: Vec<NodeId>)
        requires
            self.wf(),
            self.state().root is Some,
        ensures
            ids@ == self.crumbs(),
    {
        let ghost s = self.state();
        let ghost deep = s.depth[self.zoom];
        let mut ids = self.tree().trail(self.zoom);
        let ghost full = ids@;
        proof {
            s.lemma_trail(self.zoom, deep);
        }
        let n: usize = ids.len();
        for i in 0..n
            invariant
                s == self.state(),
                self.wf(),
                s.live(self.zoom),
                n == full.len(),
                deep == s.depth[self.zoom],
                ids@ == full,
                full == s.trail_to(self.zoom, deep),
                full.len() == deep + 1,
                forall|j: int| 0 <= j < i ==> full[j] != self.root,
        {
            if ids[i] == self.root {
                proof {
                    let k = (deep - i) as nat;
                    s.lemma_trail(self.zoom, k);
                    s.lemma_trail_end(self.zoom, k, deep);
                    s.lemma_up(self.zoom, k);
                    assert(full.skip(i as int)[0] == full[i as int]);
                    assert(full.skip(i as int) =~= full.subrange(i as int, full.len() as int));
                }
                return ids.split_off(i);
            }
        }
        proof {
            if s.within(self.zoom, self.root) {
                let k = (deep - s.depth[self.root]) as nat;
                s.lemma_trail(self.zoom, k);
                s.lemma_trail_end(self.zoom, k, deep);
                assert(full.skip(deep - k)[0] == full[deep - k]);
            }
        }
        ids
    }

    /// Shows the change of zoom from now on, if it waits for that.
    pub fn begin_anim(&mut self, now: u64)
        ensures
            *final(self) == (ScanView {
                anim: match old(self).anim {
                    Some(a) => Some(
                        AnimState {
                            kind: a.kind,
                            start: if a.start is None {
                                Some(now)
                            } else {
                                a.start
                            },
                        },
                    ),
                    None => None,
                },
                ..*old(self)
            }),
    {
        if let Some(a) = self.anim {
            if a.start.is_none() {
                self.anim = Some(AnimState { kind: a.kind, start: Some(now) });
            }
        }
    }

    /// Whether a change of zoom is shown or waits to be.
    pub fn anim_active(&self) -> (r: bool)
        ensures
            r == (self.anim is Some),
    {
        self.anim.is_some()
    }

    /// Whether a change of zoom is shown or waits to be, and its time is not up.
    pub open spec fn animates(&self, now: u64) -> bool {
        match self.anim {
            Some(a) => match a.start {
                None => true,
                Some(start) => now < start + self.zoom_anim_ms,
            },
            None => false,
        }
    }

    /// Whether a change of zoom is shown or waits to be, and its time is not up.
    pub fn is_animating(&self, now: u64) -> (r: bool)
        ensures
            r == self.animates(now),
    {
        match self.anim {
            Some(a) => match a.start {
                None => true,
                Some(start) => now < start || now - start < self.zoom_anim_ms,
            },
            None => false,
        }
    }

    /// Ends the change of zoom.
    pub fn end_anim(&mut self)
        ensures
            *final(self) == (ScanView { anim: None, ..*old(self) }),
    {
        self.anim = None;
    }

    /// Changes how many levels are shown, within bounds.
    pub fn adjust_display_depth(&mut self, delta: i32)
        requires
            i32::MIN <= old(self).display_depth + delta <= i32::MAX,
            old(self).display_depth <= i32::MAX,
            old(self).layout_epoch < u64::MAX,
        ensures
            *final(self) == (ScanView {
                display_depth: depth_within(old(self).display_depth + delta),
                layout_epoch: (old(self).layout_epoch + 1) as u64,
                ..*old(self)
            }),
    {
        let wanted: i32 = self.display_depth as i32 + delta;
        self.display_depth = if wanted < 1 {
            1
        } else if wanted > 8 {
            8
        } else {
            wanted as u32
        };
        self.layout_epoch = self.layout_epoch + 1;
    }

    /// Changes whether what the filter leaves out is shown at all.
    pub fn toggle_hard_hide(&mut self)
        requires
            old(self).layout_epoch < u64::MAX,
        ensures
            *final(self) == (ScanView {
                hard_hide_filtered: !old(self).hard_hide_filtered,
                layout_epoch: (old(self).layout_epoch + 1) as u64,
                ..*old(self)
            }),
    {
        self.hard_hide_filtered = !self.hard_hide_filtered;
        self.layout_epoch = self.layout_epoch + 1;
    }

    /// Changes how elements are coloured.
    pub fn toggle_color_style(&mut self)
        ensures
            *final(self) == (ScanView {
                color_style: match old(self).color_style {
                    ColorStyle::Flat => ColorStyle::FileClasses,
                    ColorStyle::FileClasses => ColorStyle::Flat,
                },
                ..*old(self)
            }),
    {
        self.color_style = match self.color_style {
            ColorStyle::Flat => ColorStyle::FileClasses,
            ColorStyle::FileClasses => ColorStyle::Flat,
        };
    }

    /// Changes which size areas stand for.
    pub fn toggle_size_mode(&mut self)
        requires
            old(self).layout_epoch < u64::MAX,
        ensures
            *final(self) == (ScanView {
                size_mode: match old(self).size_mode {
                    SizeMode::Allocated => SizeMode::Logical,
                    SizeMode::Logical => SizeMode::Allocated,
                },
                layout_epoch: (old(self).layout_epoch + 1) as u64,
                ..*old(self)
            }),
    {
        self.size_mode = match self.size_mode {
            SizeMode::Allocated => SizeMode::Logical,
            SizeMode::Logical => SizeMode::Allocated,
        };
        self.layout_epoch = self.layout_epoch + 1;
    }

    /// Changes whether the free space of a drive is shown.
    pub fn toggle_free_space(&mut self)
        requires
            old(self).layout_epoch < u64::MAX,
        ensures
            *final(self) == (ScanView {
                show_free_space: !old(self).show_free_space,
                layout_epoch: (old(self).layout_epoch + 1) as u64,
                ..*old(self)
            }),
    {
        self.show_free_space = !self.show_free_space;
        self.layout_epoch = self.layout_epoch + 1;
    }

    /// Changes whether the space of a drive not yet scanned is shown.
    pub fn toggle_unknown_space(&mut self)
        requires
            old(self).layout_epoch < u64::MAX,
        ensures
            *final(self) == (ScanView {
                show_unknown: !old(self).show_unknown,
                layout_epoch: (old(self).layout_epoch + 1) as u64,
                ..*old(self)
            }),
    {
        self.show_unknown = !self.show_unknown;
        self.layout_epoch = self.layout_epoch + 1;
    }

    /// The colour of a tag.
    pub fn tag_color(&self, tag: Tag) -> (c: Rgb)
        ensures
            c == self.tag_colors@[match tag {
                Tag::Red => 0int,
                Tag::Yellow => 1int,
                Tag::Green => 2int,
                Tag::Blue => 3int,
            }],
    {
        match tag {
            Tag::Red => self.tag_colors[0],
            Tag::Yellow => self.tag_colors[1],
            Tag::Green => self.tag_colors[2],
            Tag::Blue => self.tag_colors[3],
        }
    }

    /// Takes over the colours of a palette; file classes take theirs in order.
    pub fn apply_palette(&mut self, palette: &Palette)
        ensures
            *final(self) == (ScanView {
                flat_colors: palette.flat,
                tag_colors: palette.tags,
                level_contrast: palette.level_contrast,
                class_styles: final(self).class_styles,
                ..*old(self)
            }),
            final(self).class_styles@.len() == old(self).class_styles@.len(),
            forall|i: int|
                0 <= i < old(self).class_styles@.len() ==> (#[trigger] final(self).class_styles@[i])
                    == (ClassStyle {
                    class: old(self).class_styles@[i].class,
                    color: if i < palette.classes@.len() {
                        palette.classes@[i].color
                    } else {
                        old(self).class_styles@[i].color
                    },
                }),
    {
        self.flat_colors = palette.flat;
        self.tag_colors = palette.tags;
        self.level_contrast = palette.level_contrast;
        let ghost before = self.class_styles@;
        let n: usize = if self.class_styles.len() < palette.classes.len() {
            self.class_styles.len()
        } else {
            palette.classes.len()
        };
        for i in 0..n
            invariant
                n <= before.len(),
                n <= palette.classes@.len(),
                self.class_styles@.len() == before.len(),
                *self == (ScanView {
                    flat_colors: palette.flat,
                    tag_colors: palette.tags,
                    level_contrast: palette.level_contrast,
                    class_styles: self.class_styles,
                    ..*old(self)
                }),
                forall|j: int|
                    0 <= j < before.len() ==> (#[trigger] self.class_styles@[j]) == (ClassStyle {
                        class: before[j].class,
                        color: if j < i {
                            palette.classes@[j].color
                        } else {
                            before[j].color
                        },
                    }),
        {
            self.class_styles[i].color = palette.classes[i].color;
        }
    }

    /// The size that the area of a node stands for.
    pub open spec fn size(&self, id: NodeId) -> u64 {
        match self.size_mode {
            SizeMode::Allocated => self.state().nodes[id as int].agg_allocated,
            SizeMode::Logical => self.state().nodes[id as int].agg_logical,
        }
    }

    /// The size that the area of a node stands for: that of all below it,
    /// filtered or not.
    pub fn size_of(&self, id: NodeId) -> (n: u64)
        requires
            self.wf(),
            self.state().live(id),
        ensures
            n == self.size(id),
    {
        proof {
            assert(self.state().node_ok(id));
        }
        let node = self.tree().node(id);
        match self.size_mode {
            SizeMode::Allocated => node.agg_allocated,
            SizeMode::Logical => node.agg_logical,
        }
    }

    /// The bytes in use on the drive that the scan has not come upon yet.
    pub open spec fn unknown(&self) -> u64 {
        match self.drive_space {
            None => 0,
            Some(ds) => if ds.total - ds.free - self.progress.allocated_bytes > 0 {
                (ds.total - ds.free - self.progress.allocated_bytes) as u64
            } else {
                0
            },
        }
    }

    /// The bytes in use on the drive that the scan has not come upon yet.
    pub fn unknown_bytes(&self) -> (n: u64)
        ensures
            n == self.unknown(),
    {
        match self.drive_space {
            None => 0,
            Some(ds) => {
                if ds.free >= ds.total {
                    return 0;
                }
                let used: u64 = ds.total - ds.free;
                if self.progress.allocated_bytes >= used {
                    0
                } else {
                    used - self.progress.allocated_bytes
                }
            },
        }
    }

    /// The filter as it was last read.
    pub fn filter(&self) -> (r: Option<&Filter>)
        ensures
            match (r, self.filter_cache) {
                (Some(f), Some((_, g))) => *f == g,
                (None, None) => true,
                _ => false,
            },
    {
        match &self.filter_cache {
            Some((_, f)) => Some(f),
            None => None,
        }
    }

    /// What is wrong with the filter text.
    pub fn filter_warnings(&self) -> (r: &[ParseWarning])
        ensures
            filter_parse::warning_views(r@) == match self.filter_cache {
                Some((_, f)) => f@.warnings,
                None => Seq::empty(),
            },
    {
        match &self.filter_cache {
            Some((_, f)) => f.warnings(),
            None => {
                let none: &[ParseWarning] = &[];
                proof {
                    assert(filter_parse::warning_views(none@) =~= Seq::empty());
                }
                none
            },
        }
    }

    /// Whether the filter has conditions.
    pub open spec fn filters(&self) -> bool {
        self.filter_cache matches Some((_, f)) && f@.conditions.len() > 0
    }

    /// Whether the filter has conditions.
    pub fn has_active_filter(&self) -> (r: bool)
        ensures
            r == self.filters(),
    {
        match &self.filter_cache {
            Some((_, f)) => !f.is_empty(),
            None => false,
        }
    }

    /// What the filter made of a node.
    pub open spec fn verdict_on(&self, id: NodeId) -> FilterVerdict {
        if id < self.verdicts@.len() {
            self.verdicts@[id as int]
        } else {
            FilterVerdict::Visible
        }
    }

    /// What the filter made of a node; without a filter all are visible.
    pub fn verdict(&self, id: NodeId) -> (v: FilterVerdict)
        ensures
            v == self.verdict_on(id),
    {
        let i: usize = id as usize;
        if i < self.verdicts.len() {
            self.verdicts[i]
        } else {
            FilterVerdict::Visible
        }
    }

    /// Whether the filter text is other than what the filter was read from.
    pub open spec fn filter_stale(&self) -> bool {
        match self.filter_cache {
            Some((t, _)) => t@ != self.filter_text@,
            None => true,
        }
    }

    /// Whether it is time to judge the nodes anew. While a scan runs this is
    /// done now and then only.
    pub open spec fn judges(&self, now_ms: u64) -> bool {
        (self.verdicts_dirty || self.filter_stale()) && (!self.scanning || tick_due(
            self.last_verdict_pass,
            now_ms,
            VERDICT_TICK_MS,
        ))
    }

    /// Brings the filter and its verdicts up to date. The tree is not scanned
    /// for that.
    pub fn sync(&mut self, now_ms: u64, now: FileTime)
        requires
            old(self).wf(),
        ensures
            final(self).wf(),
            *final(self) == (ScanView {
                filter_cache: final(self).filter_cache,
                verdicts: final(self).verdicts,
                verdicts_dirty: final(self).verdicts_dirty,
                last_verdict_pass: final(self).last_verdict_pass,
                ..*old(self)
            }),
            final(self).filter_cache matches Some((t, f)) && t@ == old(self).filter_text@ && if old(
                self,
            ).filter_stale() {
                (f@.conditions, f@.warnings) == filter_grammar::parsed(
                    old(self).filter_text@,
                    filter_ast::class_views(class_list(old(self).class_styles@)),
                )
            } else {
                final(self).filter_cache == old(self).filter_cache
            },
            if old(self).judges(now_ms) {
                &&& !final(self).verdicts_dirty
                &&& final(self).last_verdict_pass == Some(now_ms)
                &&& verdicts::judged(
                    final(self).verdicts@,
                    old(self).state(),
                    old(self).root,
                    (final(self).filter_cache->0).1@.conditions,
                    now,
                )
            } else {
                &&& final(self).verdicts_dirty == (old(self).verdicts_dirty || old(
                    self,
                ).filter_stale())
                &&& final(self).last_verdict_pass == old(self).last_verdict_pass
                &&& final(self).verdicts == old(self).verdicts
            },
    {
        let stale = match &self.filter_cache {
            Some((t, _)) => !text::is_text(&text::chars_of(t.as_str()), self.filter_text.as_str()),
            None => true,
        };
        proof {
            assert(stale == self.filter_stale());
        }
        if stale {
            let mut classes: Vec<FileClass> = Vec::new();
            for i in 0..self.class_styles.len()
                invariant
                    classes@.len() == i,
                    forall|j: int|
                        0 <= j < i ==> (#[trigger] classes@[j])@ == self.class_styles@[j].class@,
            {
                classes.push(copy_class(&self.class_styles[i].class));
            }
            let filter = Filter::parse(self.filter_text.as_str(), classes.as_slice());
            proof {
                assert(filter_ast::class_views(classes@) =~= filter_ast::class_views(
                    class_list(self.class_styles@),
                ));
            }
            self.filter_cache = Some((self.filter_text.clone(), filter));
            self.verdicts_dirty = true;
        }
        if self.verdicts_dirty && (!self.scanning || is_due(
            self.last_verdict_pass,
            now_ms,
            VERDICT_TICK_MS,
        )) {
            self.verdicts_dirty = false;
            self.last_verdict_pass = Some(now_ms);
            let list = match &self.filter_cache {
                Some((_, f)) => verdicts::compute_verdicts(
                    self.builder.tree(),
                    self.root,
                    f,
                    now,
                ),
                None => Vec::new(),
            };
            self.verdicts = list;
        }
    }

    /// Whether the space of the drive is to be looked up again.
    pub fn drive_space_due(&self, now_ms: u64) -> (r: bool)
        ensures
            r == (self.is_drive_view && tick_due(
                self.drive_space_fetched,
                now_ms,
                DISKSPACE_TICK_MS,
            )),
    {
        self.is_drive_view && is_due(self.drive_space_fetched, now_ms, DISKSPACE_TICK_MS)
    }

    /// Takes over the space of the drive as it was looked up.
    pub fn set_drive_space(&mut self, now_ms: u64, space: Option<DiskSpace>)
        ensures
            *final(self) == (ScanView {
                drive_space: space,
                drive_space_fetched: Some(now_ms),
                ..*old(self)
            }),
    {
        self.drive_space = space;
        self.drive_space_fetched = Some(now_ms);
    }
}

/// The file classes of styles.
pub open spec fn class_list(styles: Seq<ClassStyle>) -> Seq<FileClass> {
    Seq::new(styles.len(), |i: int| styles[i].class)
}

fn copy_class(class: &FileClass) -> (c: FileClass)
    ensures
        c@ == class@,
{
    let mut extensions: Vec<String> = Vec::new();
    for i in 0..class.extensions.len()
        invariant
            extensions@.len() == i,
            forall|j: int| 0 <= j < i ==> (#[trigger] extensions@[j])@ == class.extensions@[j]@,
    {
        extensions.push(class.extensions[i].clone());
    }
    let c = FileClass { name: class.name.clone(), extensions };
    proof {
        assert(c@.extensions =~= class@.extensions);
    }
    c
}

/// A depth within bounds.
pub open spec fn depth_within(n: int) -> u32 {
    if n < MIN_DISPLAY_DEPTH {
        MIN_DISPLAY_DEPTH
    } else if n > MAX_DISPLAY_DEPTH {
        MAX_DISPLAY_DEPTH
    } else {
        n as u32
    }
}

/// A tree whose node `id` has another tag.
pub open spec fn with_tag(s: State, id: NodeId, tag: Option<Tag>) -> State {
    State { nodes: s.nodes.update(id as int, Node { tag, ..s.nodes[id as int] }), ..s }
}

/// A tree in whose subtree of `id` no node has a tag.
pub open spec fn without_tags(s: State, id: NodeId) -> State {
    State {
        nodes: Seq::new(
            s.nodes.len(),
            |i: int|
                if s.within(i as NodeId, id) {
                    Node { tag: None, ..s.nodes[i] }
                } else {
                    s.nodes[i]
                },
        ),
        ..s
    }
}

/// The tag of a node once a tag was toggled: the same tag again takes it away,
/// another one takes its place.
pub open spec fn toggled(old: Option<Tag>, tag: Tag) -> Option<Tag> {
    if old == Some(tag) {
        None
    } else {
        Some(tag)
    }
}

impl ScanView {
    /// Toggles a tag on a node.
    pub fn toggle_tag(&mut self, id: NodeId, tag: Tag)
        requires
            old(self).wf(),
            old(self).state().live(id),
        ensures
            final(self).wf(),
            *final(self) == (ScanView {
                builder: final(self).builder,
                verdicts_dirty: true,
                ..*old(self)
            }),
            final(self).builder@ == (BuilderView {
                state: with_tag(
                    old(self).state(),
                    id,
                    toggled(old(self).state().nodes[id as int].tag, tag),
                ),
                ..old(self).builder@
            }),
    {
        proof {
            assert(self.state().node_ok(id));
        }
        let now = self.tree().node(id).tag;
        let same = match now {
            Some(t) => t == tag,
            None => false,
        };
        let next = if same {
            None
        } else {
            Some(tag)
        };
        let ghost before = self.state();
        self.builder.set_tag(id, next);
        self.verdicts_dirty = true;
        proof {
            assert(forall|x: NodeId| before.live(x) ==> #[trigger] self.state().live(x));
            assert(all_live(self.state(), self.back@));
            assert(all_live(self.state(), self.forward@));
        }
    }

    /// Toggles a tag on the selection, if there is one.
    pub fn toggle_selected_tag(&mut self, tag: Tag)
        requires
            old(self).wf(),
        ensures
            final(self).wf(),
            match old(self).selected {
                None => *final(self) == *old(self),
                Some(id) => {
                    &&& *final(self) == (ScanView {
                        builder: final(self).builder,
                        verdicts_dirty: true,
                        ..*old(self)
                    })
                    &&& final(self).builder@ == (BuilderView {
                        state: with_tag(
                            old(self).state(),
                            id,
                            toggled(old(self).state().nodes[id as int].tag, tag),
                        ),
                        ..old(self).builder@
                    })
                },
            },
    {
        if let Some(id) = self.selected {
            self.toggle_tag(id, tag);
        }
    }

    /// Takes the tags away from a node and everything below it, filtered or not.
    pub fn clear_tags_below(&mut self, id: NodeId)
        requires
            old(self).wf(),
            old(self).state().live(id),
        ensures
            final(self).wf(),
            *final(self) == (ScanView {
                builder: final(self).builder,
                verdicts_dirty: true,
                ..*old(self)
            }),
            final(self).builder@ == (BuilderView {
                state: without_tags(old(self).state(), id),
                ..old(self).builder@
            }),
    {
        let ghost s = self.state();
        let ghost b = self.builder@;
        let ids = visit::subtree_ids(self.builder.tree(), id);
        proof {
            visit::lemma_subtree(s, id);
        }
        for i in 0..ids.len()
            invariant
                s == b.state,
                s.wf(),
                ids@ == visit::subtree(s, id),
                forall|x: NodeId| #[trigger] ids@.contains(x) <==> s.within(x, id),
                *self == (ScanView { builder: self.builder, ..*old(self) }),
                self.builder@.wf(),
                self.builder@ == (BuilderView { state: self.state(), ..b }),
                self.state() == (State { nodes: self.state().nodes, ..s }),
                self.state().nodes.len() == s.nodes.len(),
                forall|x: int|
                    0 <= x < s.nodes.len() ==> (#[trigger] self.state().nodes[x]) == if exists|j: int|
                        0 <= j < i && ids@[j] == x {
                        Node { tag: None, ..s.nodes[x] }
                    } else {
                        s.nodes[x]
                    },
        {
            let x: NodeId = ids[i];
            proof {
                assert(ids@.contains(x));
                assert(s.within(x, id));
                assert(s.node_ok(x));
            }
            let ghost before = self.state();
            self.builder.set_tag(x, None);
            proof {
                assert forall|y: int| 0 <= y < s.nodes.len() implies (
                #[trigger] self.state().nodes[y]) == if exists|j: int|
                    0 <= j < i + 1 && ids@[j] == y {
                    Node { tag: None, ..s.nodes[y] }
                } else {
                    s.nodes[y]
                } by {
                    let was = before.nodes[y];
                    if y == x {
                        assert(ids@[i as int] == y);
                    } else if exists|j: int| 0 <= j < i && ids@[j] == y {
                    } else {
                        assert(!exists|j: int| 0 <= j < i + 1 && ids@[j] == y);
                    }
                }
            }
        }
        self.verdicts_dirty = true;
        proof {
            let cleared = without_tags(s, id);
            assert forall|x: int| 0 <= x < s.nodes.len() implies self.state().nodes[x]
                == cleared.nodes[x] by {
                let y = x as NodeId;
                assert(s.nodes.len() <= 0x1_0000_0000);
                if s.within(y, id) {
                    assert(ids@.contains(y));
                    let j = choose|j: int| 0 <= j < ids@.len() && ids@[j] == y;
                    assert(ids@[j] == x);
                } else {
                    assert(!ids@.contains(y));
                    if exists|j: int| 0 <= j < ids@.len() && ids@[j] == x {
                        let j = choose|j: int| 0 <= j < ids@.len() && ids@[j] == x;
                        assert(ids@[j] == y);
                        assert(ids@.contains(y));
                    }
                }
            }
            assert(self.state().nodes =~= cleared.nodes);
            assert(all_live(self.state(), self.back@)) by {
                assert forall|i: int| 0 <= i < self.back@.len() implies self.state().live(
                    #[trigger] self.back@[i],
                ) by {
                    assert(s.live(self.back@[i]));
                }
            }
            assert(all_live(self.state(), self.forward@)) by {
                assert forall|i: int| 0 <= i < self.forward@.len() implies self.state().live(
                    #[trigger] self.forward@[i],
                ) by {
                    assert(s.live(self.forward@[i]));
                }
            }
        }
    }

    /// Remembers that a node changed. Not all are remembered while there are
    /// many.
    fn model_changed(&mut self, id: NodeId)
        requires
            old(self).model_epoch < u64::MAX,
        ensures
            *final(self) == (ScanView {
                changed: final(self).changed,
                verdicts_dirty: true,
                model_epoch: (old(self).model_epoch + 1) as u64,
                ..*old(self)
            }),
            final(self).changed@ == changed_with(old(self), id),
    {
        if self.flash_enabled && self.changed.len() < MAX_CHANGED {
            self.changed.push(id);
        }
        self.verdicts_dirty = true;
        self.model_epoch = self.model_epoch + 1;
    }

    /// Takes in an event of the scan.
    pub fn apply_scan_event(&mut self, event: ScanEvent)
        requires
            old(self).wf(),
            old(self).state().has_room(),
            old(self).builder@.orphans < u64::MAX,
            old(self).model_epoch < u64::MAX,
        ensures
            final(self).wf(),
            took_event(old(self), final(self), event),
    {
        let is_root = match &event {
            ScanEvent::Upsert(u) => u.parent_path.is_none(),
            ScanEvent::Error(_) => false,
        };
        let ghost before = self.builder@;
        let r = self.builder.apply_tracked(event);
        proof {
            if event is Upsert && r is Some {
                lemma_upserted(before, self.builder@, event->Upsert_0@, r->0);
            }
        }
        if let Some(id) = r {
            if is_root {
                self.root = id;
                self.zoom = id;
            }
            self.model_changed(id);
            proof {
                assert(before.upserted(self.builder@, event->Upsert_0@, id));
                if !is_root {
                    assert(before.state.live(self.root) || before.state.root is None);
                    assert forall|i: int| 0 <= i < self.back@.len() implies self.state().live(
                        #[trigger] self.back@[i],
                    ) by {
                        assert(before.state.live(self.back@[i]));
                    }
                    assert forall|i: int| 0 <= i < self.forward@.len() implies self.state().live(
                        #[trigger] self.forward@[i],
                    ) by {
                        assert(before.state.live(self.forward@[i]));
                    }
                }
            }
        }
    }

    /// Takes note of a scan that began.
    pub fn scan_began(&mut self, path: String)
        requires
            old(self).wf(),
        ensures
            final(self).wf(),
            *final(self) == (ScanView {
                scanning: true,
                scan_path: path,
                is_drive_view: diskspace::volume_root(path@),
                ..*old(self)
            }),
    {
        self.is_drive_view = diskspace::is_volume_root(path.as_str());
        self.scan_path = path;
        self.scanning = true;
    }

    /// Takes note of whether a scan runs.
    pub fn set_scanning(&mut self, scanning: bool)
        requires
            old(self).wf(),
        ensures
            final(self).wf(),
            *final(self) == (ScanView { scanning, ..*old(self) }),
    {
        self.scanning = scanning;
    }

    /// Takes note of a scan that ended.
    pub fn scan_ended(&mut self, summary: ScanSummary)
        requires
            old(self).wf(),
        ensures
            final(self).wf(),
            *final(self) == (ScanView {
                scanning: false,
                summary: Some(summary),
                resort_once: true,
                ..*old(self)
            }),
    {
        self.scanning = false;
        self.summary = Some(summary);
        self.resort_once = true;
    }

    /// Forgets the tree, for a scan that starts anew.
    pub fn begin_fresh_scan(&mut self)
        requires
            old(self).model_epoch < u64::MAX,
        ensures
            final(self).wf(),
            started_fresh(old(self), final(self)),
    {
        self.builder = TreeBuilder::new();
        self.back = Vec::new();
        self.forward = Vec::new();
        self.selected = None;
        self.summary = None;
        self.flash_until = Vec::new();
        self.verdicts_dirty = true;
        self.model_epoch = self.model_epoch + 1;
    }
}

/// Whether an event is that of the root of a scan.
pub open spec fn is_root_event(e: ScanEvent) -> bool {
    e matches ScanEvent::Upsert(u) && u.parent_path is None
}

/// Whether `new` is a view after an event.
pub open spec fn took_event(v: &ScanView, new: &ScanView, e: ScanEvent) -> bool {
    match e {
        ScanEvent::Error(_) => {
            &&& new.builder@ == v.builder@
            &&& *new == (ScanView { builder: new.builder, ..*v })
        },
        ScanEvent::Upsert(u) => if v.builder@.is_orphan(u@) {
            &&& new.builder@ == (BuilderView {
                orphans: (v.builder@.orphans + 1) as u64,
                ..v.builder@
            })
            &&& *new == (ScanView { builder: new.builder, ..*v })
        } else {
            exists|id: NodeId|
                {
                    &&& #[trigger] v.builder@.upserted(new.builder@, u@, id)
                    &&& new.changed@ == changed_with(v, id)
                    &&& *new == (ScanView {
                        builder: new.builder,
                        changed: new.changed,
                        verdicts_dirty: true,
                        model_epoch: (v.model_epoch + 1) as u64,
                        root: if u@.parent_path is None {
                            id
                        } else {
                            v.root
                        },
                        zoom: if u@.parent_path is None {
                            id
                        } else {
                            v.zoom
                        },
                        ..*v
                    })
                }
        },
    }
}

/// Whether `new` is a view that forgot its tree.
pub open spec fn started_fresh(v: &ScanView, new: &ScanView) -> bool {
    &&& new.state().root is None
    &&& new.builder@.orphans == 0
    &&& new.builder@.dirs.dom() == Set::<Seq<char>>::empty()
    &&& new.back@.len() == 0
    &&& new.forward@.len() == 0
    &&& new.flash_until@.len() == 0
    &&& *new == (ScanView {
        builder: new.builder,
        back: new.back,
        forward: new.forward,
        flash_until: new.flash_until,
        selected: None,
        summary: None,
        verdicts_dirty: true,
        model_epoch: (v.model_epoch + 1) as u64,
        ..*v
    })
}

/// The changed nodes with one more.
pub open spec fn changed_with(v: &ScanView, id: NodeId) -> Seq<NodeId> {
    if v.flash_enabled && v.changed@.len() < MAX_CHANGED {
        v.changed@.push(id)
    } else {
        v.changed@
    }
}

/// A node added by an event is in the tree, and so is what was in it before.
proof fn lemma_upserted(b: BuilderView, new: BuilderView, u: UpsertView, id: NodeId)
    requires
        b.wf(),
        new.wf(),
        b.upserted(new, u, id),
    ensures
        new.state.live(id),
        new.state.root is Some,
        forall|x: NodeId| b.state.live(x) ==> #[trigger] new.state.live(x),
        u.parent_path is None ==> b.state.root is None,
        u.parent_path is Some ==> b.state.root is Some,
{
    match b.parent_of(u) {
        Some(parent) => {
            assert(b.state.live(parent));
            assert(b.state.root is Some);
        },
        None => {
            assert(u.parent_path is None);
            if b.state.root is Some {
                let r = b.state.root->0;
                b.state.lemma_counts();
                assert(b.state.depth.dom().contains(r));
            }
        },
    }
}

/// The node at a path: the root of the scan at the path that was scanned, and
/// what follows that path leads down by names.
pub open spec fn node_at(v: &ScanView, path: Seq<char>) -> Option<NodeId> {
    if v.state().root is None {
        None
    } else {
        match paths::below(path, v.scan_path@) {
            Some(names) => snapshot::descend(v.state(), v.root, names),
            None => None,
        }
    }
}

/// Whether `new` is a view without the subtree of `id`: what pointed into it
/// points elsewhere.
pub open spec fn dropped(v: &ScanView, new: &ScanView, id: NodeId) -> bool {
    let s = v.state();
    &&& s.removed(new.state(), id)
    &&& new.builder@.orphans == v.builder@.orphans
    &&& new.builder@.dirs == v.builder@.dirs.remove_keys(
        builder::doomed_dirs(s, v.builder@.dirs, id),
    )
    &&& new.back@ == survivors(s, v.back@, id)
    &&& new.forward@ == survivors(s, v.forward@, id)
    &&& forall|x: NodeId| #[trigger]
        flashing(new.flash_until@, x) == if s.within(x, id) {
            None
        } else {
            flashing(v.flash_until@, x)
        }
    &&& *new == (ScanView {
        builder: new.builder,
        back: new.back,
        forward: new.forward,
        flash_until: new.flash_until,
        zoom: if s.within(v.zoom, id) {
            match s.nodes[id as int].parent {
                Some(up) => up,
                None => v.root,
            }
        } else {
            v.zoom
        },
        selected: match v.selected {
            Some(x) => if s.within(x, id) {
                None
            } else {
                Some(x)
            },
            None => None,
        },
        verdicts_dirty: true,
        layout_epoch: (v.layout_epoch + 1) as u64,
        model_epoch: (v.model_epoch + 1) as u64,
        ..*v
    })
}

impl ScanView {
    /// Takes a subtree out of the tree. It must not hold the root of the scan.
    pub fn drop_subtree(&mut self, id: NodeId)
        requires
            old(self).wf(),
            old(self).state().live(id),
            !old(self).state().within(old(self).root, id),
            old(self).layout_epoch < u64::MAX,
            old(self).model_epoch < u64::MAX,
        ensures
            final(self).wf(),
            dropped(old(self), final(self), id),
    {
        let ghost s = self.state();
        let ghost v = *self;
        let ids = visit::subtree_ids(self.builder.tree(), id);
        let marks = visit::marks_of(&ids);
        proof {
            visit::lemma_subtree(s, id);
            assert forall|x: NodeId| #[trigger] visit::marked(marks@, x) <==> s.within(x, id) by {
                assert(visit::marked(marks@, x) <==> ids@.contains(x));
            }
            assert(s.node_ok(id));
            lemma_survivors(s, self.back@, id);
            lemma_survivors(s, self.forward@, id);
        }
        self.let_go_of(id, &marks);
        self.builder.remove_node(id);
        self.verdicts_dirty = true;
        self.layout_epoch = self.layout_epoch + 1;
        self.model_epoch = self.model_epoch + 1;
        proof {
            let new = self.state();
            assert forall|x: NodeId| s.live(x) && !s.within(x, id) implies #[trigger] new.live(
                x,
            ) by {
                assert(new.depth == s.depth.remove_keys(Set::new(|y: NodeId| s.within(y, id))));
            }
            assert(new.live(self.root));
            assert(new.root is Some);
            assert(new.live(self.zoom));
            assert(all_live(new, self.back@)) by {
                assert forall|i: int| 0 <= i < self.back@.len() implies new.live(
                    #[trigger] self.back@[i],
                ) by {
                    assert(!s.within(survivors(s, v.back@, id)[i], id));
                }
            }
            assert(all_live(new, self.forward@)) by {
                assert forall|i: int| 0 <= i < self.forward@.len() implies new.live(
                    #[trigger] self.forward@[i],
                ) by {
                    assert(!s.within(survivors(s, v.forward@, id)[i], id));
                }
            }
        }
    }

    /// Points elsewhere with everything that points into a subtree.
    fn let_go_of(&mut self, id: NodeId, marks: &Vec<bool>)
        requires
            old(self).wf(),
            old(self).state().live(id),
            !old(self).state().within(old(self).root, id),
            forall|x: NodeId| #[trigger]
                visit::marked(marks@, x) <==> old(self).state().within(x, id),
        ensures
            ({
                let s = old(self).state();
                &&& final(self).back@ == survivors(s, old(self).back@, id)
                &&& final(self).forward@ == survivors(s, old(self).forward@, id)
                &&& forall|x: NodeId| #[trigger]
                    flashing(final(self).flash_until@, x) == if s.within(x, id) {
                        None
                    } else {
                        flashing(old(self).flash_until@, x)
                    }
                &&& !s.within(final(self).zoom, id)
                &&& s.root is Some
                &&& s.live(final(self).zoom)
                &&& *final(self) == (ScanView {
                    back: final(self).back,
                    forward: final(self).forward,
                    flash_until: final(self).flash_until,
                    zoom: if s.within(old(self).zoom, id) {
                        match s.nodes[id as int].parent {
                            Some(up) => up,
                            None => old(self).root,
                        }
                    } else {
                        old(self).zoom
                    },
                    selected: match old(self).selected {
                        Some(x) => if s.within(x, id) {
                            None
                        } else {
                            Some(x)
                        },
                        None => None,
                    },
                    ..*old(self)
                })
            }),
    {
        let ghost s = self.state();
        proof {
            assert(s.node_ok(id));
            assert(s.root is Some) by {
                s.lemma_all_within(id);
            }
            assert(s.nodes[id as int].parent matches Some(up) ==> s.live(up) && !s.within(
                up,
                id,
            )) by {
                if let Some(up) = s.nodes[id as int].parent {
                    s.lemma_parent(id, up);
                    s.lemma_within_parent(id, up, id);
                }
            }
        }
        let parent = self.tree().node(id).parent;
        let zoom: NodeId = if visit::is_marked(marks, self.zoom) {
            match parent {
                Some(up) => up,
                None => self.root,
            }
        } else {
            self.zoom
        };
        let selected: Option<NodeId> = match self.selected {
            Some(x) => if visit::is_marked(marks, x) {
                None
            } else {
                Some(x)
            },
            None => None,
        };
        let back = unmarked(&self.back, marks, Ghost(s), Ghost(id));
        let forward = unmarked(&self.forward, marks, Ghost(s), Ghost(id));
        let flash_until = flashes_without(&self.flash_until, marks);
        proof {
            assert forall|x: NodeId| #[trigger]
                flashing(flash_until@, x) == if s.within(x, id) {
                    None
                } else {
                    flashing(self.flash_until@, x)
                } by {
                assert(visit::marked(marks@, x) <==> s.within(x, id));
            }
        }
        self.zoom = zoom;
        self.selected = selected;
        self.back = back;
        self.forward = forward;
        self.flash_until = flash_until;
    }

    /// The node at a path of the file system.
    pub fn find_by_path(&self, path: &str) -> (r: Option<NodeId>)
        requires
            self.wf(),
        ensures
            r == node_at(self, path@),
            r matches Some(id) ==> self.state().live(id),
    {
        if !self.has_root() {
            return None;
        }
        match paths::strip_prefix(path, self.scan_path.as_str()) {
            Some(names) => snapshot::follow_names(self.tree(), self.root, &names),
            None => None,
        }
    }

    /// Takes in a change of the file system. `found` is the node that the path
    /// of the change makes, if there is anything at it now.
    pub fn apply_watch_event(&mut self, event: &WatchEvent, found: Option<NodeParams>) -> (r:
        WatchOutcome)
        requires
            old(self).wf(),
            watchable(old(self)),
        ensures
            final(self).wf(),
            change_seen(old(self), final(self), *event, found, r@),
    {
        match event {
            WatchEvent::Upsert(p) => self.watch_upsert(p.as_str(), found),
            WatchEvent::Remove(p) => self.watch_remove(p.as_str()),
            WatchEvent::SubtreeDirty(p) => {
                if paths::same_path(p.as_str(), self.scan_path.as_str()) {
                    WatchOutcome::RescanFull
                } else {
                    WatchOutcome::RescanSubtree(p.clone())
                }
            },
        }
    }

    fn watch_upsert(&mut self, path: &str, found: Option<NodeParams>) -> (r: WatchOutcome)
        requires
            old(self).wf(),
            old(self).state().has_room(),
            old(self).builder@.orphans < u64::MAX,
            old(self).layout_epoch < u64::MAX,
            old(self).model_epoch < u64::MAX,
            old(self).state().root is Some ==> old(self).state().root == Some(old(self).root),
        ensures
            final(self).wf(),
            upsert_seen(old(self), final(self), path@, found, r@),
    {
        if let Some(id) = self.find_by_path(path) {
            match found {
                Some(params) => {
                    let ghost s = self.state();
                    self.builder.restat(id, &params);
                    proof {
                        assert forall|i: int| 0 <= i < self.back@.len() implies self.state().live(
                            #[trigger] self.back@[i],
                        ) by {
                            assert(s.live(self.back@[i]));
                        }
                        assert forall|i: int| 0 <= i < self.forward@.len() implies self.state().live(
                            #[trigger] self.forward@[i],
                        ) by {
                            assert(s.live(self.forward@[i]));
                        }
                    }
                    self.model_changed(id);
                    WatchOutcome::Applied
                },
                None => self.watch_remove(path),
            }
        } else {
            let parent = match paths::parent_path(path) {
                Some(p) => p,
                None => {
                    return WatchOutcome::Ignored;
                },
            };
            let params = match found {
                Some(p) => p,
                None => {
                    return WatchOutcome::Ignored;
                },
            };
            let is_dir = params.kind == NodeKind::Directory;
            let ghost before = self.builder@;
            let u = Upsert { parent_path: Some(parent), path: path.to_owned(), params };
            let ghost uv = u@;
            match self.builder.apply_tracked(ScanEvent::Upsert(u)) {
                Some(id) => {
                    proof {
                        lemma_upserted(before, self.builder@, uv, id);
                        assert forall|i: int| 0 <= i < self.back@.len() implies self.state().live(
                            #[trigger] self.back@[i],
                        ) by {
                            assert(before.state.live(self.back@[i]));
                        }
                        assert forall|i: int| 0 <= i < self.forward@.len() implies self.state().live(
                            #[trigger] self.forward@[i],
                        ) by {
                            assert(before.state.live(self.forward@[i]));
                        }
                    }
                    self.model_changed(id);
                    proof {
                        assert(before.upserted(self.builder@, uv, id));
                    }
                    if is_dir {
                        WatchOutcome::RescanSubtree(path.to_owned())
                    } else {
                        WatchOutcome::Applied
                    }
                },
                None => WatchOutcome::Ignored,
            }
        }
    }

    fn watch_remove(&mut self, path: &str) -> (r: WatchOutcome)
        requires
            old(self).wf(),
            old(self).layout_epoch < u64::MAX,
            old(self).model_epoch < u64::MAX,
            old(self).state().root is Some ==> old(self).state().root == Some(old(self).root),
        ensures
            final(self).wf(),
            removal_seen(old(self), final(self), path@, r@),
    {
        match self.find_by_path(path) {
            None => WatchOutcome::Ignored,
            Some(id) => {
                if id == self.root {
                    return WatchOutcome::RescanFull;
                }
                proof {
                    let s = self.state();
                    assert(s.node_ok(self.root));
                    assert(s.node_ok(id));
                    if s.within(self.root, id) {
                        assert(s.depth[id] == 0);
                        assert(s.up(self.root, 0) == self.root);
                    }
                }
                self.drop_subtree(id);
                WatchOutcome::Applied
            },
        }
    }

    /// Moves the changed nodes to those that flash, and says whether any node
    /// flashes still.
    pub fn update_flashes(&mut self, now: u64) -> (r: bool)
        requires
            now <= u64::MAX - FLASH_MS,
        ensures
            *final(self) == (ScanView {
                flash_until: final(self).flash_until,
                changed: final(self).changed,
                ..*old(self)
            }),
            final(self).changed@.len() == 0,
            forall|id: NodeId| #[trigger]
                flashing(final(self).flash_until@, id) == if old(self).changed@.contains(id) {
                    Some((now + FLASH_MS) as u64)
                } else {
                    match flashing(old(self).flash_until@, id) {
                        Some(u) => if u > now {
                            Some(u)
                        } else {
                            None
                        },
                        None => None,
                    }
                },
            r <==> exists|id: NodeId| #[trigger] flashing(final(self).flash_until@, id) is Some,
    {
        let until: u64 = now + FLASH_MS;
        let ghost old_until = self.flash_until@;
        let ghost changed = self.changed@;
        let mut marks: Vec<u64> = Vec::new();
        for i in 0..self.flash_until.len()
            invariant
                old_until == self.flash_until@,
                marks@.len() == i,
                forall|j: int|
                    0 <= j < i ==> (#[trigger] marks@[j]) == if old_until[j] > now {
                        old_until[j]
                    } else {
                        0
                    },
        {
            let u: u64 = self.flash_until[i];
            marks.push(
                if u > now {
                    u
                } else {
                    0
                },
            );
        }
        let ghost kept = marks@;
        for i in 0..self.changed.len()
            invariant
                changed == self.changed@,
                until == now + FLASH_MS,
                kept.len() == old_until.len(),
                forall|j: int|
                    0 <= j < kept.len() ==> (#[trigger] kept[j]) == if old_until[j] > now {
                        old_until[j]
                    } else {
                        0
                    },
                forall|id: NodeId| #[trigger]
                    flashing(marks@, id) == if exists|j: int| 0 <= j < i && changed[j] == id {
                        Some(until)
                    } else {
                        flashing(kept, id)
                    },
        {
            let k: usize = self.changed[i] as usize;
            let ghost before = marks@;
            while marks.len() <= k
                invariant
                    marks@.len() >= before.len(),
                    forall|j: int| 0 <= j < before.len() ==> marks@[j] == before[j],
                    forall|j: int| before.len() <= j < marks@.len() ==> marks@[j] == 0,
                decreases k + 1 - marks@.len(),
            {
                marks.push(0);
            }
            let ghost grown = marks@;
            marks.set(k, until);
            proof {
                assert forall|id: NodeId| #[trigger]
                    flashing(marks@, id) == if exists|j: int| 0 <= j < i + 1 && changed[j] == id {
                        Some(until)
                    } else {
                        flashing(kept, id)
                    } by {
                    let was = flashing(before, id);
                    if id == k {
                        assert(changed[i as int] == id);
                    } else {
                        assert(flashing(marks@, id) == flashing(before, id));
                        if exists|j: int| 0 <= j < i + 1 && changed[j] == id {
                            let j = choose|j: int| 0 <= j < i + 1 && changed[j] == id;
                            assert(j < i);
                        }
                    }
                }
            }
        }
        let mut any = false;
        for i in 0..marks.len()
            invariant
                any <==> exists|j: int| 0 <= j < i && j <= u32::MAX && (#[trigger] marks@[j]) > 0,
        {
            if marks[i] > 0 && i as u64 <= 0xFFFF_FFFF {
                any = true;
            }
        }
        self.flash_until = marks;
        self.changed = Vec::new();
        proof {
            let new = self.flash_until@;
            if any {
                let j = choose|j: int|
                    0 <= j < new.len() && j <= u32::MAX && (#[trigger] new[j]) > 0;
                assert(flashing(new, j as NodeId) is Some);
            }
            assert forall|id: NodeId| #[trigger] flashing(new, id) is Some implies any by {
                assert(new[id as int] > 0);
            }
        }
        any
    }

    /// How brightly a node flashes, in thousandths, if it does: less and less,
    /// from six tenths on.
    pub fn flash_alpha(&self, id: NodeId, now: u64) -> (r: Option<u64>)
        ensures
            r == match flashing(self.flash_until@, id) {
                None => None,
                Some(until) => Some(brightness(until, now)),
            },
    {
        let i: usize = id as usize;
        if i >= self.flash_until.len() || self.flash_until[i] == 0 {
            return None;
        }
        let until: u64 = self.flash_until[i];
        let left: u64 = if until <= now {
            0
        } else if until - now > FLASH_MS {
            FLASH_MS
        } else {
            until - now
        };
        Some(left * 600 / FLASH_MS)
    }
}

/// How brightly something flashes that does so until a time.
pub open spec fn brightness(until: u64, now: u64) -> u64 {
    if until <= now {
        0
    } else if until - now > FLASH_MS {
        600
    } else {
        ((until - now) * 600 / FLASH_MS as int) as u64
    }
}

/// The flashing nodes but for marked ones.
fn flashes_without(until: &Vec<u64>, marks: &Vec<bool>) -> (r: Vec<u64>)
    ensures
        r@.len() == until@.len(),
        forall|x: NodeId| #[trigger]
            flashing(r@, x) == if visit::marked(marks@, x) {
                None
            } else {
                flashing(until@, x)
            },
{
    let mut r: Vec<u64> = Vec::new();
    for i in 0..until.len()
        invariant
            r@.len() == i,
            forall|j: int|
                0 <= j < i ==> (#[trigger] r@[j]) == if j < marks@.len() && marks@[j] {
                    0
                } else {
                    until@[j]
                },
    {
        let gone = i < marks.len() && marks[i];
        r.push(
            if gone {
                0
            } else {
                until[i]
            },
        );
    }
    r
}

/// Whether changes of the file system can be taken into a view: it shows a whole
/// tree, and its counters have room for one more.
pub open spec fn watchable(v: &ScanView) -> bool {
    &&& v.state().has_room()
    &&& v.builder@.orphans < u64::MAX
    &&& v.layout_epoch < u64::MAX
    &&& v.model_epoch < u64::MAX
    &&& v.state().root is Some ==> v.state().root == Some(v.root)
}

/// Whether `new` is a view after a change of the file system, and what came of it.
pub open spec fn change_seen(
    v: &ScanView,
    new: &ScanView,
    event: WatchEvent,
    found: Option<NodeParams>,
    r: OutcomeView,
) -> bool {
    match event {
        WatchEvent::Upsert(p) => upsert_seen(v, new, p@, found, r),
        WatchEvent::Remove(p) => removal_seen(v, new, p@, r),
        WatchEvent::SubtreeDirty(p) => *new == *v && r == if paths::parts(p@) == paths::parts(
            v.scan_path@,
        ) {
            OutcomeView::RescanFull
        } else {
            OutcomeView::RescanSubtree(p@)
        },
    }
}

/// What comes of it that something is there, new or changed. A node at the path
/// takes over the sizes, flags and times; without one there is a new node in its
/// directory, and a directory is to be scanned. If there is nothing at the path
/// after all, it was taken away.
pub open spec fn upsert_seen(
    v: &ScanView,
    new: &ScanView,
    path: Seq<char>,
    found: Option<NodeParams>,
    r: OutcomeView,
) -> bool {
    match node_at(v, path) {
        Some(id) => match found {
            Some(params) => {
                &&& r == OutcomeView::Applied
                &&& builder::restated(v.state(), new.state(), id, params@)
                &&& new.builder@.dirs == v.builder@.dirs
                &&& new.builder@.orphans == v.builder@.orphans
                &&& new.changed@ == changed_with(v, id)
                &&& *new == (ScanView {
                    builder: new.builder,
                    changed: new.changed,
                    verdicts_dirty: true,
                    model_epoch: (v.model_epoch + 1) as u64,
                    ..*v
                })
            },
            None => removal_seen(v, new, path, r),
        },
        None => if paths::parent(path) is None || found is None {
            r == OutcomeView::Ignored && *new == *v
        } else {
            let u = UpsertView {
                parent_path: paths::parent(path),
                path,
                params: (found->0)@,
            };
            if v.builder@.is_orphan(u) {
                &&& r == OutcomeView::Ignored
                &&& new.builder@ == (BuilderView {
                    orphans: (v.builder@.orphans + 1) as u64,
                    ..v.builder@
                })
                &&& *new == (ScanView { builder: new.builder, ..*v })
            } else {
                &&& r == if (found->0).kind == NodeKind::Directory {
                    OutcomeView::RescanSubtree(path)
                } else {
                    OutcomeView::Applied
                }
                &&& exists|id: NodeId|
                    {
                        &&& #[trigger] v.builder@.upserted(new.builder@, u, id)
                        &&& new.changed@ == changed_with(v, id)
                        &&& *new == (ScanView {
                            builder: new.builder,
                            changed: new.changed,
                            verdicts_dirty: true,
                            model_epoch: (v.model_epoch + 1) as u64,
                            ..*v
                        })
                    }
            }
        },
    }
}

/// What comes of it that something is gone: its node goes with all below it. If
/// it was the root of the scan, all is to be scanned anew.
pub open spec fn removal_seen(
    v: &ScanView,
    new: &ScanView,
    path: Seq<char>,
    r: OutcomeView,
) -> bool {
    match node_at(v, path) {
        None => r == OutcomeView::Ignored && *new == *v,
        Some(id) => if id == v.root {
            r == OutcomeView::RescanFull && *new == *v
        } else {
            r == OutcomeView::Applied && dropped(v, new, id)
        },
    }
}

/// Going back and then forward leads to where the view was, and leaves the past
/// and the future as they were.
pub proof fn law_back_and_forward(v: &ScanView, b: &ScanView, f: &ScanView)
    requires
        v.back@.len() > 0,
        went_back(v, b),
        went_forward(b, f),
    ensures
        f.zoom == v.zoom,
        f.back@ == v.back@,
        f.forward@ == v.forward@,
{
    assert(f.forward@ =~= v.forward@);
    assert(f.back@ =~= v.back@);
}

/// Going forward and then back leads to where the view was, and leaves the past
/// and the future as they were.
pub proof fn law_forward_and_back(v: &ScanView, f: &ScanView, b: &ScanView)
    requires
        v.forward@.len() > 0,
        went_forward(v, f),
        went_back(f, b),
    ensures
        b.zoom == v.zoom,
        b.back@ == v.back@,
        b.forward@ == v.forward@,
{
    assert(b.forward@ =~= v.forward@);
    assert(b.back@ =~= v.back@);
}

/// After a navigation, going back leads to where the view was, and from there
/// forward only to where it navigated.
pub proof fn law_navigate_and_back(
    v: &ScanView,
    n: &ScanView,
    b: &ScanView,
    id: NodeId,
    kind: AnimKind,
)
    requires
        id != v.zoom,
        navigated(v, n, id, kind),
        went_back(n, b),
    ensures
        b.zoom == v.zoom,
        b.back@ == v.back@,
        b.forward@ == seq![id],
{
    assert(b.back@ =~= v.back@);
    assert(b.forward@ =~= seq![id]);
}

/// Toggling a tag twice takes it away, whatever tag there was.
pub proof fn law_toggle_twice(old: Option<Tag>, tag: Tag)
    ensures
        old != Some(tag) ==> toggled(toggled(old, tag), tag) is None,
        old == Some(tag) ==> toggled(toggled(old, tag), tag) == old,
{
}

/// Once a subtree is gone nothing of the view points into it: what the view is
/// zoomed to, was and could go, and what is selected is outside it.
pub proof fn law_nothing_points_into_the_dropped(v: &ScanView, new: &ScanView, id: NodeId)
    requires
        v.wf(),
        v.state().live(id),
        !v.state().within(v.root, id),
        dropped(v, new, id),
    ensures
        !v.state().within(new.zoom, id),
        new.selected matches Some(x) ==> !v.state().within(x, id),
        forall|i: int|
            0 <= i < new.back@.len() ==> !v.state().within(#[trigger] new.back@[i], id),
        forall|i: int|
            0 <= i < new.forward@.len() ==> !v.state().within(#[trigger] new.forward@[i], id),
        forall|x: NodeId|
            v.state().within(x, id) ==> #[trigger] flashing(new.flash_until@, x) is None,
{
    let s = v.state();
    lemma_survivors(s, v.back@, id);
    lemma_survivors(s, v.forward@, id);
    match s.nodes[id as int].parent {
        Some(up) => {
            s.lemma_parent(id, up);
            s.lemma_within_parent(id, up, id);
        },
        None => {},
    }
}

/// Of the nodes that a view remembers, those that are not dropped stay, in their
/// order, and no other.
pub proof fn law_survivors(s: State, ids: Seq<NodeId>, last: NodeId, id: NodeId)
    ensures
        s.within(last, id) ==> survivors(s, ids.push(last), id) == survivors(s, ids, id),
        !s.within(last, id) ==> survivors(s, ids.push(last), id) == survivors(s, ids, id).push(last),
        survivors(s, Seq::empty(), id).len() == 0,
{
    assert(ids.push(last).drop_last() =~= ids);
}

/// Moves are animated only where animations take time.
pub proof fn law_animated_moves(v: &ScanView, new: &ScanView, id: NodeId, kind: AnimKind)
    requires
        navigated(v, new, id, kind),
        id != v.zoom,
    ensures
        v.zoom_anim_ms == 0 ==> new.anim is None,
        v.zoom_anim_ms > 0 ==> new.anim is Some && (new.anim->0).kind == kind && (
        new.anim->0).start is None,
{
}

} // verus!
