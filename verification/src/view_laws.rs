//! What holds of a view of a scan: what moving about, tagging, flashing and
//! watching change, and what they leave as it is.
use vstd::prelude::*;

use crate::export::SizeMode;
use crate::filter::FilterVerdict;
use crate::model::State;
use crate::node::{NodeParams, Tag};
use crate::paths;
use crate::scan::{ScanEvent, Upsert};
use crate::view;
use crate::view::{AnimKind, OutcomeView, ScanView, WatchEvent};
use crate::NodeId;

verus! {

/// The size of an element is that of the whole subtree, allocated or logical as
/// the view says.
pub proof fn law_element_sizes(v: &ScanView, id: NodeId)
    ensures
        v.size_mode == SizeMode::Allocated ==> v.size(id)
            == v.state().nodes[id as int].agg_allocated,
        v.size_mode == SizeMode::Logical ==> v.size(id) == v.state().nodes[id as int].agg_logical,
{
}

/// What of a drive is not scanned yet makes up its total together with the free
/// space and what the scan has allocated so far; it is nothing where these exceed
/// the total, or where the drive is not known.
pub proof fn law_unknown_space(v: &ScanView)
    ensures
        v.drive_space matches Some(ds) ==> (ds.free + v.progress.allocated_bytes <= ds.total ==> v.unknown() + ds.free + v.progress.allocated_bytes == ds.total),
        v.drive_space matches Some(ds) ==> (ds.free + v.progress.allocated_bytes > ds.total ==> v.unknown() == 0),
        v.drive_space is None ==> v.unknown() == 0,
{
}

/// Moving to another node shows that node, remembers where one came from as the
/// last step back, forgets the steps forward and the selection, and leaves the tree
/// and its root alone. Moving to where one is changes nothing.
pub proof fn law_navigation(v: &ScanView, new: &ScanView, id: NodeId, kind: AnimKind)
    requires
        view::navigated(v, new, id, kind),
    ensures
        new.zoom == id,
        new.root == v.root,
        new.state() == v.state(),
        new.filter_text == v.filter_text,
        id == v.zoom ==> *new == *v,
        id != v.zoom ==> {
            &&& new.back@.len() == v.back@.len() + 1
            &&& new.back@.last() == v.zoom
            &&& forall|i: int| 0 <= i < v.back@.len() ==> #[trigger] new.back@[i] == v.back@[i]
            &&& new.forward@.len() == 0
            &&& new.selected is None
            &&& new.anim is Some <==> v.zoom_anim_ms > 0
            &&& new.resort_once
        },
{
}

/// A step back goes to where one was last and can be taken back by a step forward;
/// without such a place it changes nothing.
pub proof fn law_step_back(v: &ScanView, new: &ScanView)
    requires
        view::went_back(v, new),
    ensures
        new.root == v.root,
        new.state() == v.state(),
        v.back@.len() == 0 ==> *new == *v,
        v.back@.len() > 0 ==> {
            &&& new.zoom == v.back@[v.back@.len() - 1]
            &&& new.back@.len() == v.back@.len() - 1
            &&& forall|i: int| 0 <= i < new.back@.len() ==> #[trigger] new.back@[i] == v.back@[i]
            &&& new.forward@.len() == v.forward@.len() + 1
            &&& new.forward@[v.forward@.len() as int] == v.zoom
            &&& new.selected is None
        },
{
}

/// A step forward goes to where the last step back came from; without one it
/// changes nothing.
pub proof fn law_step_forward(v: &ScanView, new: &ScanView)
    requires
        view::went_forward(v, new),
    ensures
        new.root == v.root,
        new.state() == v.state(),
        v.forward@.len() == 0 ==> *new == *v,
        v.forward@.len() > 0 ==> {
            &&& new.zoom == v.forward@[v.forward@.len() - 1]
            &&& new.forward@.len() == v.forward@.len() - 1
            &&& new.back@.len() == v.back@.len() + 1
            &&& new.back@[v.back@.len() as int] == v.zoom
            &&& new.selected is None
        },
{
}

/// Out of a node leads its parent, out of the root of the view nothing.
pub proof fn law_way_out(v: &ScanView)
    ensures
        v.zoom == v.root ==> v.above() is None,
        v.zoom != v.root ==> v.above() == v.state().nodes[v.zoom as int].parent,
{
}

proof fn lemma_trail_links(s: State, x: NodeId, k: nat)
    requires
        s.links(),
        s.live(x),
        k <= s.depth[x],
    ensures
        s.trail_to(x, k).len() == k + 1,
        s.trail_to(x, k).last() == x,
        forall|i: int|
            0 < i <= k ==> s.nodes[#[trigger] s.trail_to(x, k)[i] as int].parent == Some(
                s.trail_to(x, k)[i - 1],
            ),
    decreases k,
{
    s.lemma_trail(x, k);
    if k > 0 {
        assert(s.node_ok(x));
        let up = s.nodes[x as int].parent->0;
        s.lemma_up(x, 1);
        assert(s.up(x, 1) == up) by {
            reveal_with_fuel(State::up, 2);
        }
        lemma_trail_links(s, up, (k - 1) as nat);
        let before = s.trail_to(up, (k - 1) as nat);
        let all = s.trail_to(x, k);
        assert(all =~= before.push(x));
        assert(s.nodes[x as int].parent is Some);
        assert forall|i: int| 0 < i <= k implies s.nodes[#[trigger] all[i] as int].parent == Some(
            all[i - 1],
        ) by {
            if i < k {
                assert(all[i] == before[i]);
                assert(all[i - 1] == before[i - 1]);
            } else {
                assert(all[i] == x);
                assert(all[i - 1] == before.last());
            }
        }
    }
}

/// The trail above a view leads from its root to the zoomed node, each node being
/// the parent of the next.
pub proof fn law_trail(v: &ScanView)
    requires
        v.wf(),
        v.state().links(),
        v.state().root is Some,
        v.state().within(v.zoom, v.root),
    ensures
        ({
            let ids = v.crumbs();
            &&& ids.len() > 0
            &&& ids[0] == v.root
            &&& ids[ids.len() - 1] == v.zoom
            &&& forall|i: int|
                0 < i < ids.len() ==> v.state().nodes[#[trigger] ids[i] as int].parent == Some(
                    ids[i - 1],
                )
        }),
{
    let s = v.state();
    let k = (s.depth[v.zoom] - s.depth[v.root]) as nat;
    lemma_trail_links(s, v.zoom, k);
    s.lemma_trail(v.zoom, k);
}

/// Tagging with the tag that a node bears takes it off; with another it takes the
/// place of the old one.
pub proof fn law_tag_toggles(old: Option<Tag>, tag: Tag)
    ensures
        old == Some(tag) ==> view::toggled(old, tag) is None,
        old != Some(tag) ==> view::toggled(old, tag) == Some(tag),
{
}

/// Setting a tag changes the tag of that node and nothing else.
pub proof fn law_tag_is_set(s: State, id: NodeId, tag: Option<Tag>)
    requires
        id < s.nodes.len(),
    ensures
        ({
            let new = view::with_tag(s, id, tag);
            &&& new.nodes.len() == s.nodes.len()
            &&& new.nodes[id as int].tag == tag
            &&& new.nodes[id as int].name == s.nodes[id as int].name
            &&& new.nodes[id as int].agg_allocated == s.nodes[id as int].agg_allocated
            &&& forall|x: int|
                0 <= x < s.nodes.len() && x != id ==> #[trigger] new.nodes[x] == s.nodes[x]
            &&& new.kids == s.kids
            &&& new.depth == s.depth
            &&& new.root == s.root
        }),
{
}

/// Clearing tags takes them off a node and everything below it, and nothing else.
pub proof fn law_tags_are_cleared(s: State, id: NodeId, x: NodeId)
    requires
        x < s.nodes.len(),
    ensures
        ({
            let new = view::without_tags(s, id);
            &&& s.within(x, id) ==> new.nodes[x as int].tag is None
            &&& s.within(x, id) ==> new.nodes[x as int].name == s.nodes[x as int].name
            &&& !s.within(x, id) ==> new.nodes[x as int] == s.nodes[x as int]
            &&& new.kids == s.kids
            &&& new.depth == s.depth
            &&& new.root == s.root
        }),
{
    assert(x as int as NodeId == x);
}

/// A flash fades: it starts at full strength, never grows, and is gone when its
/// time is over.
pub proof fn law_flashes_fade(until: u64, a: u64, b: u64)
    requires
        a <= b,
    ensures
        view::brightness(until, b) <= view::brightness(until, a) <= 600,
        until <= a ==> view::brightness(until, a) == 0,
        until - a == 700 ==> view::brightness(until, a) == 600,
        until - a == 350 ==> view::brightness(until, a) == 300,
        until > a && until - a <= 700 ==> view::brightness(until, a) == (until - a) * 600 / 700,
{
    if until > b && until - a <= 700 {
        assert((until - b) * 600 / 700 <= (until - a) * 600 / 700) by (nonlinear_arith)
            requires
                until - b <= until - a,
        ;
    }
}

/// A node that changed is remembered for a flash where flashes are on and there is
/// room, after those that changed before it.
pub proof fn law_changes_are_remembered(v: &ScanView, id: NodeId)
    ensures
        v.flash_enabled && v.changed@.len() < 4096 ==> view::changed_with(v, id) == v.changed@.push(
            id,
        ),
        !v.flash_enabled || v.changed@.len() >= 4096 ==> view::changed_with(v, id) == v.changed@,
{
}

/// The number of levels shown is kept between one and eight.
pub proof fn law_levels(n: int)
    ensures
        1 <= view::depth_within(n) <= 8,
        1 <= n <= 8 ==> view::depth_within(n) == n,
        n < 1 ==> view::depth_within(n) == 1,
        n > 8 ==> view::depth_within(n) == 8,
{
}

/// A change of zoom is shown from when it starts for as long as the view says.
pub proof fn law_animations(v: &ScanView, now: u64)
    ensures
        v.anim is None ==> !v.animates(now),
        v.anim matches Some(a) ==> (a.start is None ==> v.animates(now)),
        v.anim matches Some(a) ==> (a.start matches Some(start) ==> (v.animates(now) <==> now < start
            + v.zoom_anim_ms)),
{
}

/// Work that is done every so often is due at first, and then once the time since
/// the last time has passed.
pub proof fn law_ticks(last: Option<u64>, now: u64, tick: u64)
    ensures
        last is None ==> view::tick_due(last, now, tick),
        last matches Some(t) ==> (now >= t ==> (view::tick_due(last, now, tick) <==> now - t >= tick)),
        last matches Some(t) ==> (now < t ==> !view::tick_due(last, now, tick)),
{
}

/// The filter is applied anew when it or the tree changed, while a scan runs at
/// most every half second.
pub proof fn law_judging(v: &ScanView, now_ms: u64)
    ensures
        !v.verdicts_dirty && !v.filter_stale() ==> !v.judges(now_ms),
        (v.verdicts_dirty || v.filter_stale()) && !v.scanning ==> v.judges(now_ms),
        (v.verdicts_dirty || v.filter_stale()) && v.scanning ==> (v.judges(now_ms) <==> (
        v.last_verdict_pass is None || (now_ms >= v.last_verdict_pass->0 && now_ms
            - v.last_verdict_pass->0 >= 500))),
        v.filter_cache matches Some((t, _)) ==> (v.filter_stale() <==> t@ != v.filter_text@),
{
}

/// Where nothing has been judged everything is visible.
pub proof fn law_unjudged_is_visible(v: &ScanView, id: NodeId)
    ensures
        id >= v.verdicts@.len() ==> v.verdict_on(id) == FilterVerdict::Visible,
        id < v.verdicts@.len() ==> v.verdict_on(id) == v.verdicts@[id as int],
{
}

/// The first node of a scan becomes the root of the view and is shown; every other
/// node of a scan leaves both as they are, and every problem leaves all as it is.
pub proof fn law_scan_events(v: &ScanView, new: &ScanView, u: Upsert)
    requires
        view::took_event(v, new, ScanEvent::Upsert(u)),
        !v.builder@.is_orphan(u@),
    ensures
        u.parent_path is None ==> new.root == new.zoom,
        u.parent_path is Some ==> new.root == v.root && new.zoom == v.zoom,
        new.verdicts_dirty,
        new.selected == v.selected,
        new.filter_text == v.filter_text,
        new.scanning == v.scanning,
{
}

/// A removed path leaves no node behind; the removal of the root asks for a new
/// scan, and that of something unknown is passed over.
pub proof fn law_removals(v: &ScanView, new: &ScanView, path: Seq<char>, r: OutcomeView)
    requires
        view::removal_seen(v, new, path, r),
    ensures
        view::node_at(v, path) is None ==> r == OutcomeView::Ignored && *new == *v,
        view::node_at(v, path) == Some(v.root) ==> r == OutcomeView::RescanFull && *new == *v,
        view::node_at(v, path) is Some && view::node_at(v, path) != Some(v.root) ==> {
            &&& r == OutcomeView::Applied
            &&& v.state().removed(new.state(), view::node_at(v, path)->0)
            &&& new.verdicts_dirty
        },
{
}

/// A change of a known path that is still there is applied; one of a path that is
/// gone is a removal; and a folder that changed as a whole asks for a new scan of
/// it, or of everything if it is where the scan started.
pub proof fn law_changes(
    v: &ScanView,
    new: &ScanView,
    event: WatchEvent,
    found: Option<NodeParams>,
    r: OutcomeView,
)
    requires
        view::change_seen(v, new, event, found, r),
    ensures
        event matches WatchEvent::Upsert(p) ==> (view::node_at(v, p@) is Some && found is Some ==> r
            == OutcomeView::Applied && new.verdicts_dirty && new.root == v.root && new.zoom
            == v.zoom),
        event matches WatchEvent::Upsert(p) ==> (view::node_at(v, p@) is Some && found is None ==> view::removal_seen(v, new, p@, r)),
        event matches WatchEvent::Upsert(p) ==> (view::node_at(v, p@) is None && found is None ==> r
            == OutcomeView::Ignored && *new == *v),
        event matches WatchEvent::Remove(p) ==> view::removal_seen(v, new, p@, r),
        event matches WatchEvent::SubtreeDirty(p) ==> (paths::parts(p@) == paths::parts(v.scan_path@) ==> r == OutcomeView::RescanFull && *new == *v),
        event matches WatchEvent::SubtreeDirty(p) ==> (paths::parts(p@) != paths::parts(v.scan_path@) ==> r == OutcomeView::RescanSubtree(p@) && *new == *v),
{
}

/// Starting anew empties the tree, the steps and the selection, and keeps what the
/// user set.
pub proof fn law_fresh_start(v: &ScanView, new: &ScanView)
    requires
        view::started_fresh(v, new),
    ensures
        new.state().root is None,
        new.back@.len() == 0,
        new.forward@.len() == 0,
        new.selected is None,
        new.summary is None,
        new.verdicts_dirty,
        new.filter_text == v.filter_text,
        new.size_mode == v.size_mode,
        new.color_style == v.color_style,
        new.class_styles == v.class_styles,
        new.display_depth == v.display_depth,
{
}

} // verus!
