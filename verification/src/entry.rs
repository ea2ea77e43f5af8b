//! A view with its scan and its watcher: what becomes of what they tell.
use vstd::prelude::*;
use vstd::string::*;

use crate::diskspace;
use crate::model::State;
use crate::node::NodeParams;
use crate::paths;
use crate::scan::{ScanEvent, ScanProgress, ScanSummary, Upsert, UpsertView};
use crate::view;
use crate::view::ScanView;
use crate::NodeId;

verus! {

/// What a scan tells.
pub enum ScanMsg {
    Progress(ScanProgress),
    Event(ScanEvent),
    /// The scan ended; if it failed, why.
    Finished(Result<ScanSummary, String>),
    /// The scan of a subtree ended.
    SubtreeFinished(String, Result<ScanSummary, String>),
}

/// A scan that runs.
#[derive(Clone, Copy, PartialEq, Eq, Debug, Structural)]
pub struct RunningScan {
    pub cancel: bool,
    pub pause: bool,
}

/// What is to be done once a message was taken in.
pub enum Told {
    Nothing,
    /// Changes of the file system are to be watched from now on.
    StartWatcher,
    /// The user is to be told.
    Notice(String),
}

/// A view with its scan and its watcher.
pub struct ViewEntry {
    pub view: ScanView,
    pub scan: Option<RunningScan>,
    /// Whether changes of the file system are watched.
    pub watching: bool,
    /// Why they are not.
    pub watch_notice: Option<String>,
    /// Whether the window of the view is open.
    pub open: bool,
    pub ever_scanned: bool,
    /// Whether the tree is to be forgotten when the scan comes upon its root.
    pub pending_fresh: bool,
}

/// Whether the counters of a view have room for one more event.
pub open spec fn has_room(v: &ScanView) -> bool {
    &&& v.state().has_room()
    &&& v.builder@.orphans < u64::MAX
    &&& v.model_epoch < u64::MAX - 1
    &&& v.layout_epoch < u64::MAX
}

/// Whether `new` is an entry after its scan told how far it is.
#[verifier::opaque]
pub open spec fn progress_taken(v: &ViewEntry, new: &ViewEntry, p: ScanProgress) -> bool {
    *new == (ViewEntry { view: ScanView { progress: p, ..v.view }, ..*v })
}

/// Whether `new` is an entry after its scan ended. If it did not fail, changes of
/// the file system are watched from then on.
#[verifier::opaque]
pub open spec fn end_taken(
    v: &ViewEntry,
    new: &ViewEntry,
    result: Result<ScanSummary, String>,
    r: Told,
) -> bool {
    match result {
        Ok(summary) => {
            &&& r is StartWatcher
            &&& *new == (ViewEntry {
                scan: None,
                view: ScanView {
                    scanning: false,
                    summary: Some(summary),
                    resort_once: true,
                    ..v.view
                },
                ..*v
            })
        },
        Err(m) => {
            &&& r matches Told::Notice(n) && n@ == "scan failed: "@ + m@
            &&& *new == (ViewEntry {
                scan: None,
                view: ScanView { scanning: false, ..v.view },
                ..*v
            })
        },
    }
}

/// Whether `new` is an entry after an event of the scan. If the tree was to be
/// forgotten and the event is that of the root, it is forgotten first.
#[verifier::opaque]
pub open spec fn event_taken(v: &ViewEntry, new: &ViewEntry, e: ScanEvent) -> bool {
    if v.pending_fresh && view::is_root_event(e) {
        &&& exists|mid: ScanView|
            #[trigger] view::started_fresh(&v.view, &mid) && view::took_event(&mid, &new.view, e)
        &&& *new == (ViewEntry { view: new.view, pending_fresh: false, ..*v })
    } else {
        &&& view::took_event(&v.view, &new.view, e)
        &&& *new == (ViewEntry { view: new.view, ..*v })
    }
}

/// Whether `new` is an entry after a scan of a path started in it. The old tree is
/// shown until the new one comes, if there is one.
pub open spec fn scan_begun(v: &ViewEntry, new: &ViewEntry, path: String, fresh: bool) -> bool {
    let empty = v.view.state().root is None;
    let named = ScanView {
        scanning: true,
        scan_path: path,
        is_drive_view: diskspace::volume_root(path@),
        ..v.view
    };
    &&& *new == (ViewEntry {
        view: new.view,
        scan: Some(RunningScan { cancel: false, pause: false }),
        ever_scanned: true,
        pending_fresh: (v.pending_fresh || fresh) && !(fresh && empty),
        ..*v
    })
    &&& if fresh && empty {
        view::started_fresh(&named, &new.view)
    } else {
        new.view == named
    }
}

impl ViewEntry {
    /// Whether nothing was done with an entry yet.
    pub open spec fn untouched(&self) -> bool {
        &&& self.view.wf()
        &&& self.view.state().root is None
        &&& self.view.scan_path@.len() == 0
        &&& self.view.starts_plain()
        &&& self.scan is None
        &&& !self.watching
        &&& self.watch_notice is None
        &&& self.open
        &&& !self.ever_scanned
        &&& !self.pending_fresh
    }

    /// An entry without a scan.
    pub fn new() -> (e: Self)
        ensures
            e.untouched(),
    {
        ViewEntry {
            view: ScanView::for_scan(String::new()),
            scan: None,
            watching: false,
            watch_notice: None,
            open: true,
            ever_scanned: false,
            pending_fresh: false,
        }
    }

    /// An entry with a complete view.
    pub fn completed(view: ScanView) -> (e: Self)
        requires
            view.wf(),
        ensures
            e == (ViewEntry {
                view,
                scan: None,
                watching: false,
                watch_notice: None,
                open: true,
                ever_scanned: true,
                pending_fresh: false,
            }),
    {
        ViewEntry {
            view,
            scan: None,
            watching: false,
            watch_notice: None,
            open: true,
            ever_scanned: true,
            pending_fresh: false,
        }
    }

    /// Takes in what the scan tells.
    pub fn take(&mut self, msg: ScanMsg) -> (r: Told)
        requires
            old(self).view.wf(),
            has_room(&old(self).view),
        ensures
            final(self).view.wf(),
            match msg {
                ScanMsg::Progress(p) => r is Nothing && progress_taken(old(self), final(self), p),
                ScanMsg::Event(e) => r is Nothing && event_taken(old(self), final(self), e),
                ScanMsg::Finished(result) => end_taken(old(self), final(self), result, r),
                ScanMsg::SubtreeFinished(p, result) => {
                    &&& *final(self) == *old(self)
                    &&& match result {
                        Ok(_) => r is Nothing,
                        Err(m) => r matches Told::Notice(n) && n@ == "subtree rescan of "@ + p@
                            + " failed: "@ + m@,
                    }
                },
            },
    {
        match msg {
            ScanMsg::Progress(p) => {
                self.take_progress(p);
                Told::Nothing
            },
            ScanMsg::Event(e) => {
                self.take_event(e);
                Told::Nothing
            },
            ScanMsg::Finished(result) => self.take_end(result),
            ScanMsg::SubtreeFinished(p, result) => match result {
                Ok(_) => Told::Nothing,
                Err(m) => {
                    let mut n = "subtree rescan of ".to_owned();
                    n.append(p.as_str());
                    n.append(" failed: ");
                    n.append(m.as_str());
                    Told::Notice(n)
                },
            },
        }
    }

    fn take_progress(&mut self, p: ScanProgress)
        requires
            old(self).view.wf(),
        ensures
            final(self).view.wf(),
            progress_taken(old(self), final(self), p),
    {
        self.view.progress = p;
        proof {
            reveal(progress_taken);
        }
    }

    fn take_success(&mut self, summary: ScanSummary)
        requires
            old(self).view.wf(),
        ensures
            final(self).view.wf(),
            *final(self) == (ViewEntry {
                scan: None,
                view: ScanView {
                    scanning: false,
                    summary: Some(summary),
                    resort_once: true,
                    ..old(self).view
                },
                ..*old(self)
            }),
    {
        self.scan = None;
        self.view.scan_ended(summary);
    }

    fn take_failure(&mut self)
        requires
            old(self).view.wf(),
        ensures
            final(self).view.wf(),
            *final(self) == (ViewEntry {
                scan: None,
                view: ScanView { scanning: false, ..old(self).view },
                ..*old(self)
            }),
    {
        self.scan = None;
        self.view.set_scanning(false);
    }

    fn take_end(&mut self, result: Result<ScanSummary, String>) -> (r: Told)
        requires
            old(self).view.wf(),
        ensures
            end_taken(old(self), final(self), result, r),
            final(self).view.wf(),
    {
        let message = match result {
            Ok(summary) => {
                self.take_success(summary);
                assert(end_taken(old(self), self, result, Told::StartWatcher)) by {
                    reveal(end_taken);
                }
                return Told::StartWatcher;
            },
            Err(m) => m,
        };
        self.take_failure();
        let mut n = "scan failed: ".to_owned();
        n.append(message.as_str());
        assert(end_taken(old(self), self, result, Told::Notice(n))) by {
            reveal(end_taken);
        }
        Told::Notice(n)
    }

    fn take_event(&mut self, e: ScanEvent)
        requires
            old(self).view.wf(),
            has_room(&old(self).view),
        ensures
            final(self).view.wf(),
            event_taken(old(self), final(self), e),
    {
        proof {
            reveal(event_taken);
        }
        let is_root = match &e {
            ScanEvent::Upsert(u) => u.parent_path.is_none(),
            ScanEvent::Error(_) => false,
        };
        if self.pending_fresh && is_root {
            self.view.begin_fresh_scan();
            self.pending_fresh = false;
            let ghost mid = self.view;
            proof {
                assert(view::started_fresh(&old(self).view, &mid));
                lemma_empty_has_room(mid.state());
            }
            self.view.apply_scan_event(e);
            proof {
                assert(view::took_event(&mid, &self.view, e));
            }
        } else {
            self.view.apply_scan_event(e);
        }
    }

    /// Takes note of whether the scan runs, once its messages were taken in.
    pub fn settle(&mut self)
        requires
            old(self).view.wf(),
        ensures
            final(self).view.wf(),
            *final(self) == (ViewEntry {
                view: ScanView { scanning: old(self).scan is Some, ..old(self).view },
                ..*old(self)
            }),
    {
        self.view.set_scanning(self.scan.is_some());
    }

    /// Ends what goes on, for a scan that is about to start.
    pub fn prepare_scan(&mut self)
        ensures
            *final(self) == (ViewEntry {
                scan: match old(self).scan {
                    Some(s) => Some(RunningScan { cancel: true, ..s }),
                    None => None,
                },
                watching: false,
                watch_notice: None,
                ..*old(self)
            }),
    {
        self.cancel();
        self.watching = false;
        self.watch_notice = None;
    }

    /// Takes note of a scan that started. The old tree is shown until the new
    /// one comes, if there is one.
    pub fn scan_started(&mut self, path: String, fresh: bool)
        requires
            old(self).view.wf(),
            old(self).view.model_epoch < u64::MAX,
        ensures
            final(self).view.wf(),
            scan_begun(old(self), final(self), path, fresh),
    {
        self.scan = Some(RunningScan { cancel: false, pause: false });
        self.view.scan_began(path);
        self.pending_fresh = self.pending_fresh || fresh;
        self.ever_scanned = true;
        if fresh && !self.view.has_root() {
            self.view.begin_fresh_scan();
            self.pending_fresh = false;
        }
    }

    /// The path to scan anew, if there is one. What a snapshot holds is not
    /// scanned anew.
    pub fn rescan_path(&self) -> (r: Option<String>)
        ensures
            match r {
                Some(p) => p@ == self.view.scan_path@ && p@.len() > 0 && !self.view.is_loaded(),
                None => self.view.scan_path@.len() == 0 || self.view.is_loaded(),
            },
    {
        if self.view.from_snapshot() || self.view.scan_path.as_str().unicode_len() == 0 {
            None
        } else {
            Some(self.view.scan_path.clone())
        }
    }

    /// Takes a subtree out of the tree, for a scan of it that is about to start.
    pub fn prepare_subtree_scan(&mut self, path: &str)
        requires
            old(self).view.wf(),
            old(self).view.layout_epoch < u64::MAX,
            old(self).view.model_epoch < u64::MAX,
            old(self).view.state().root is Some ==> old(self).view.state().root == Some(
                old(self).view.root,
            ),
        ensures
            final(self).view.wf(),
            match view::node_at(&old(self).view, path@) {
                Some(id) => if id != old(self).view.root {
                    &&& view::dropped(&old(self).view, &final(self).view, id)
                    &&& *final(self) == (ViewEntry { view: final(self).view, ..*old(self) })
                } else {
                    *final(self) == *old(self)
                },
                None => *final(self) == *old(self),
            },
    {
        if let Some(id) = self.view.find_by_path(path) {
            if id != self.view.root {
                proof {
                    let s = self.view.state();
                    assert(s.node_ok(self.view.root));
                    assert(s.node_ok(id));
                    if s.within(self.view.root, id) {
                        assert(s.depth[id] == 0);
                        assert(s.up(self.view.root, 0) == self.view.root);
                    }
                }
                self.view.drop_subtree(id);
            }
        }
    }

    /// Asks the scan to end.
    pub fn cancel(&mut self)
        ensures
            *final(self) == (ViewEntry {
                scan: match old(self).scan {
                    Some(s) => Some(RunningScan { cancel: true, ..s }),
                    None => None,
                },
                ..*old(self)
            }),
    {
        if let Some(s) = self.scan {
            self.scan = Some(RunningScan { cancel: true, pause: s.pause });
        }
    }

    /// Asks the scan to pause or to go on.
    pub fn set_paused(&mut self, paused: bool)
        ensures
            *final(self) == (ViewEntry {
                scan: match old(self).scan {
                    Some(s) => Some(RunningScan { pause: paused, ..s }),
                    None => None,
                },
                ..*old(self)
            }),
    {
        if let Some(s) = self.scan {
            self.scan = Some(RunningScan { cancel: s.cancel, pause: paused });
        }
    }

    /// Whether the scan is asked to pause.
    pub open spec fn paused(&self) -> bool {
        self.scan matches Some(s) && s.pause
    }

    /// Whether the scan is asked to pause.
    pub fn is_paused(&self) -> (r: bool)
        ensures
            r == self.paused(),
    {
        match self.scan {
            Some(s) => s.pause,
            None => false,
        }
    }

    /// Whether changes of the file system are to be watched. If that is switched
    /// off, the notice says so.
    pub fn wants_watcher(&mut self, enabled: Option<bool>) -> (r: bool)
        ensures
            r == (old(self).view.state().root is Some && enabled != Some(false)),
            if old(self).view.state().root is Some && enabled == Some(false) {
                &&& final(self).watch_notice matches Some(n) && n@
                    == "live updates disabled in settings — press F5 to rescan"@
                &&& *final(self) == (ViewEntry {
                    watch_notice: final(self).watch_notice,
                    ..*old(self)
                })
            } else {
                *final(self) == *old(self)
            },
    {
        if !self.view.has_root() {
            return false;
        }
        let off = match enabled {
            Some(b) => !b,
            None => false,
        };
        if off {
            self.watch_notice = Some(
                "live updates disabled in settings — press F5 to rescan".to_owned(),
            );
            return false;
        }
        true
    }

    /// Takes note of whether changes of the file system can be watched.
    pub fn watcher_started(&mut self, outcome: Result<(), String>)
        ensures
            match outcome {
                Ok(_) => *final(self) == (ViewEntry { watching: true, ..*old(self) }),
                Err(m) => {
                    &&& final(self).watch_notice matches Some(n) && n@
                        == "live updates unavailable ("@ + m@ + ") — press F5 to rescan"@
                    &&& *final(self) == (ViewEntry {
                        watch_notice: final(self).watch_notice,
                        ..*old(self)
                    })
                },
            },
    {
        match outcome {
            Ok(_) => {
                self.watching = true;
            },
            Err(m) => {
                let mut n = "live updates unavailable (".to_owned();
                n.append(m.as_str());
                n.append(") — press F5 to rescan");
                self.watch_notice = Some(n);
            },
        }
    }
}

impl Default for ViewEntry {
    fn default() -> (e: Self)
        ensures
            e.untouched(),
    {
        ViewEntry::new()
    }
}

/// A tree without nodes has room for one.
proof fn lemma_empty_has_room(s: State)
    requires
        s.wf(),
        s.root is None,
    ensures
        s.has_room(),
{
    if s.nodes.len() > u32::MAX {
        let id: NodeId = 0;
        assert(!s.live(id));
        assert(s.free.contains(id));
        assert(s.free.len() > 0);
    }
}

/// An event of the scan of a subtree, put into the tree: its root goes into the
/// directory that holds it, under the name that it has there.
pub open spec fn regrafted(u: UpsertView, path: Seq<char>) -> UpsertView {
    if u.parent_path is None {
        UpsertView {
            parent_path: paths::parent(path),
            path: u.path,
            params: crate::node::NodeData {
                name: match paths::file_name(path) {
                    Some(n) => n,
                    None => path,
                },
                ..u.params
            },
        }
    } else {
        u
    }
}

/// An event of the scan of a subtree, put into the tree.
pub fn regraft(u: Upsert, path: &str) -> (r: Upsert)
    ensures
        r@ == regrafted(u@, path@),
{
    if u.parent_path.is_some() {
        return u;
    }
    let name = match paths::name_of(path) {
        Some(n) => n,
        None => path.to_owned(),
    };
    let params = NodeParams { name, ..u.params };
    Upsert { parent_path: paths::parent_path(path), path: u.path, params }
}

} // verus!
