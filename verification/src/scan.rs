//! What scans report, and what controls them.
use vstd::prelude::*;
use vstd::string::*;

use crate::node::{NodeData, NodeKind, NodeParams};
use crate::ntfs;
use crate::ntfs::{EngineChoice, EnginePlan, PathClass};

verus! {

/// A node that a scan found.
#[derive(Debug)]
pub struct Upsert {
    /// The path of the directory that holds it; none of the root of the scan.
    pub parent_path: Option<String>,
    /// The path of the node.
    pub path: String,
    pub params: NodeParams,
}

/// A node that a scan found, in mathematical terms.
#[verifier::ext_equal]
pub struct UpsertView {
    pub parent_path: Option<Seq<char>>,
    pub path: Seq<char>,
    pub params: NodeData,
}

/// A text that may be missing.
pub open spec fn text_option(s: Option<String>) -> Option<Seq<char>> {
    match s {
        Some(t) => Some(t@),
        None => None,
    }
}

impl View for Upsert {
    type V = UpsertView;

    open spec fn view(&self) -> UpsertView {
        UpsertView {
            parent_path: text_option(self.parent_path),
            path: self.path@,
            params: self.params@,
        }
    }
}

/// A problem that did not stop a scan.
#[derive(Debug, PartialEq, Eq)]
pub struct ScanProblem {
    /// The path that has the problem, if it is known.
    pub path: Option<String>,
    pub message: String,
}

/// A problem in mathematical terms.
#[verifier::ext_equal]
pub struct ProblemView {
    pub path: Option<Seq<char>>,
    pub message: Seq<char>,
}

impl View for ScanProblem {
    type V = ProblemView;

    open spec fn view(&self) -> ProblemView {
        ProblemView { path: text_option(self.path), message: self.message@ }
    }
}

impl ScanProblem {
    /// The same problem once more.
    pub fn copied(&self) -> (p: ScanProblem)
        ensures
            p@ == self@,
    {
        ScanProblem {
            path: match &self.path {
                Some(path) => Some(path.clone()),
                None => None,
            },
            message: self.message.clone(),
        }
    }
}

/// A problem, if there is one, in mathematical terms.
pub open spec fn problem_option(p: Option<ScanProblem>) -> Option<ProblemView> {
    match p {
        Some(p) => Some(p@),
        None => None,
    }
}

/// What a scan tells as it goes.
#[derive(Debug)]
pub enum ScanEvent {
    /// A node was found.
    Upsert(Upsert),
    /// There was a problem.
    Error(ScanProblem),
}

/// What a scan tells, in mathematical terms.
pub enum EventView {
    Node(UpsertView),
    Problem(ProblemView),
}

impl View for ScanEvent {
    type V = EventView;

    open spec fn view(&self) -> EventView {
        match *self {
            ScanEvent::Upsert(u) => EventView::Node(u@),
            ScanEvent::Error(p) => EventView::Problem(p@),
        }
    }
}

/// What a scan tells, in mathematical terms.
pub open spec fn event_views(list: Seq<ScanEvent>) -> Seq<EventView> {
    Seq::new(list.len(), |i: int| list[i]@)
}

/// How far a scan has come.
#[derive(Clone, Copy, Debug, PartialEq, Eq, Structural)]
pub struct ScanProgress {
    pub entries: u64,
    pub files: u64,
    pub dirs: u64,
    pub logical_bytes: u64,
    pub allocated_bytes: u64,
}

impl Default for ScanProgress {
    fn default() -> (p: Self)
        ensures
            p == (ScanProgress {
                entries: 0,
                files: 0,
                dirs: 0,
                logical_bytes: 0,
                allocated_bytes: 0,
            }),
    {
        ScanProgress { entries: 0, files: 0, dirs: 0, logical_bytes: 0, allocated_bytes: 0 }
    }
}

/// What a scan came to. A cancelled scan has one too.
#[derive(Debug)]
pub struct ScanSummary {
    /// The path that was scanned.
    pub root: String,
    pub entries: u64,
    pub files: u64,
    pub dirs: u64,
    pub logical_size: u64,
    pub allocated_size: u64,
    /// How many subtrees could not be read.
    pub unaccessible: u64,
    pub errors: Vec<ScanProblem>,
    pub cancelled: bool,
    /// How long the scan took, in milliseconds.
    pub elapsed_ms: u64,
}

/// A summary in mathematical terms.
#[verifier::ext_equal]
pub struct SummaryView {
    pub root: Seq<char>,
    pub entries: u64,
    pub files: u64,
    pub dirs: u64,
    pub logical_size: u64,
    pub allocated_size: u64,
    pub unaccessible: u64,
    pub errors: Seq<ProblemView>,
    pub cancelled: bool,
    pub elapsed_ms: u64,
}

/// Problems in mathematical terms.
pub open spec fn problem_views(v: Seq<ScanProblem>) -> Seq<ProblemView> {
    Seq::new(v.len(), |i: int| v[i]@)
}

impl View for ScanSummary {
    type V = SummaryView;

    open spec fn view(&self) -> SummaryView {
        SummaryView {
            root: self.root@,
            entries: self.entries,
            files: self.files,
            dirs: self.dirs,
            logical_size: self.logical_size,
            allocated_size: self.allocated_size,
            unaccessible: self.unaccessible,
            errors: problem_views(self.errors@),
            cancelled: self.cancelled,
            elapsed_ms: self.elapsed_ms,
        }
    }
}

/// The summary of a scan that has found nothing yet.
pub open spec fn no_summary(root: Seq<char>) -> SummaryView {
    SummaryView {
        root,
        entries: 0,
        files: 0,
        dirs: 0,
        logical_size: 0,
        allocated_size: 0,
        unaccessible: 0,
        errors: Seq::empty(),
        cancelled: false,
        elapsed_ms: 0,
    }
}

impl Default for ScanSummary {
    fn default() -> (s: Self)
        ensures
            s@ == no_summary(Seq::empty()),
    {
        let s = ScanSummary::for_root(String::new());
        proof {
            assert(s@.root =~= Seq::empty());
        }
        s
    }
}

impl ScanSummary {
    /// The summary of a scan of `root` that has found nothing yet.
    pub fn for_root(root: String) -> (s: Self)
        ensures
            s@ == no_summary(root@),
    {
        let s = ScanSummary {
            root,
            entries: 0,
            files: 0,
            dirs: 0,
            logical_size: 0,
            allocated_size: 0,
            unaccessible: 0,
            errors: Vec::new(),
            cancelled: false,
            elapsed_ms: 0,
        };
        proof {
            assert(s@.errors =~= Seq::empty());
        }
        s
    }

    /// How far the scan has come.
    pub fn progress(&self) -> (p: ScanProgress)
        ensures
            p == (ScanProgress {
                entries: self.entries,
                files: self.files,
                dirs: self.dirs,
                logical_bytes: self.logical_size,
                allocated_bytes: self.allocated_size,
            }),
    {
        ScanProgress {
            entries: self.entries,
            files: self.files,
            dirs: self.dirs,
            logical_bytes: self.logical_size,
            allocated_bytes: self.allocated_size,
        }
    }

    /// Counts a node.
    pub fn count(&mut self, params: &NodeParams)
        requires
            can_count(old(self)@, params@),
        ensures
            final(self)@ == counted(old(self)@, params@),
    {
        self.entries = self.entries + 1;
        if params.kind == NodeKind::File {
            self.files = self.files + 1;
        }
        if params.kind == NodeKind::Directory {
            self.dirs = self.dirs + 1;
        }
        self.logical_size = self.logical_size + params.logical_size;
        self.allocated_size = self.allocated_size + params.allocated_size;
    }

    /// Adds a problem, and gives it back to be told.
    pub fn add_problem(&mut self, path: Option<String>, message: String) -> (told: ScanProblem)
        ensures
            final(self)@ == with_problem(old(self)@, text_option(path), message@),
            told@ == (ProblemView { path: text_option(path), message: message@ }),
    {
        let ghost before = problem_views(self.errors@);
        let problem = ScanProblem { path, message };
        let told = problem.copied();
        self.errors.push(problem);
        proof {
            assert(problem_views(self.errors@) =~= before.push(problem@));
        }
        told
    }
}

/// Whether the counts have room for a node.
pub open spec fn can_count(s: SummaryView, d: NodeData) -> bool {
    &&& s.entries < u64::MAX
    &&& s.files <= s.entries
    &&& s.dirs <= s.entries
    &&& s.logical_size + d.logical_size <= u64::MAX
    &&& s.allocated_size + d.allocated_size <= u64::MAX
}

/// A summary with one more node.
pub open spec fn counted(s: SummaryView, d: NodeData) -> SummaryView {
    SummaryView {
        entries: (s.entries + 1) as u64,
        files: if d.kind == NodeKind::File {
            (s.files + 1) as u64
        } else {
            s.files
        },
        dirs: if d.kind == NodeKind::Directory {
            (s.dirs + 1) as u64
        } else {
            s.dirs
        },
        logical_size: (s.logical_size + d.logical_size) as u64,
        allocated_size: (s.allocated_size + d.allocated_size) as u64,
        ..s
    }
}

/// A summary with one more problem.
pub open spec fn with_problem(
    s: SummaryView,
    path: Option<Seq<char>>,
    message: Seq<char>,
) -> SummaryView {
    SummaryView { errors: s.errors.push(ProblemView { path, message }), ..s }
}

/// What controls a scan, as it stands at one moment.
#[derive(Clone, Copy, Debug)]
pub struct ScanOptions {
    /// Whether links are to be followed. No engine does.
    pub follow_links: bool,
    /// How many threads walk; 0 for as many as the machine runs at once.
    pub threads: usize,
    /// Whether the scan is to stop.
    pub cancel: bool,
    /// Whether the scan is to wait.
    pub pause: bool,
}

impl Default for ScanOptions {
    fn default() -> (o: Self)
        ensures
            o == (ScanOptions { follow_links: false, threads: 0, cancel: false, pause: false }),
    {
        ScanOptions { follow_links: false, threads: 0, cancel: false, pause: false }
    }
}

impl ScanOptions {
    /// Whether the scan is to stop.
    pub fn is_cancelled(&self) -> (r: bool)
        ensures
            r == self.cancel,
    {
        self.cancel
    }

    /// Whether the scan is to wait: stopping wins over waiting.
    pub fn must_wait(&self) -> (r: bool)
        ensures
            r == (self.pause && !self.cancel),
    {
        self.pause && !self.cancel
    }

    /// How many threads walk, given how many the machine runs at once.
    pub fn worker_threads(&self, available: Option<usize>) -> (n: usize)
        ensures
            n == if self.threads != 0 {
                self.threads
            } else {
                match available {
                    Some(a) => a,
                    None => 4,
                }
            },
    {
        if self.threads != 0 {
            self.threads
        } else {
            match available {
                Some(a) => a,
                None => 4,
            }
        }
    }
}

/// Why a scan failed as a whole.
#[derive(Debug, PartialEq, Eq)]
#[allow(inconsistent_fields)]
pub enum ScanError {
    /// There is nothing at the path.
    RootNotFound(String),
    /// What is at the path cannot be read.
    RootUnreadable { path: String, message: String },
    /// The path is on no local volume.
    NotALocalVolume(String),
    /// The volume cannot be read.
    VolumeError(String),
}

/// An error in mathematical terms.
#[verifier::ext_equal]
#[allow(inconsistent_fields)]
pub enum ScanErrorView {
    RootNotFound(Seq<char>),
    RootUnreadable { path: Seq<char>, message: Seq<char> },
    NotALocalVolume(Seq<char>),
    VolumeError(Seq<char>),
}

impl View for ScanError {
    type V = ScanErrorView;

    open spec fn view(&self) -> ScanErrorView {
        match *self {
            ScanError::RootNotFound(p) => ScanErrorView::RootNotFound(p@),
            ScanError::RootUnreadable { path, message } => ScanErrorView::RootUnreadable {
                path: path@,
                message: message@,
            },
            ScanError::NotALocalVolume(p) => ScanErrorView::NotALocalVolume(p@),
            ScanError::VolumeError(m) => ScanErrorView::VolumeError(m@),
        }
    }
}

/// The engine for a path where only walks can be made.
pub fn select_engine(root: &str) -> (r: EngineChoice)
    ensures
        r == EngineChoice::Walk,
{
    let _ = root;
    EngineChoice::Walk
}

/// What is found out about the volume of a path before an engine is chosen:
/// nothing, unless the path has a drive letter.
pub open spec fn probed(class: PathClass, fs_name: Option<&str>, openable: bool) -> EnginePlan {
    if class is Drive {
        ntfs::plan_of(class, fs_name, openable)
    } else {
        ntfs::plan_of(class, None, false)
    }
}

/// The engine for a path, given the file system of its volume and whether the
/// volume can be opened.
pub fn plan_engine(root: &str, fs_name: Option<&str>, volume_openable: bool) -> (plan: EnginePlan)
    ensures
        plan == probed(ntfs::class_of(root@), fs_name, volume_openable),
{
    let class = ntfs::classify_path(root);
    match class {
        PathClass::Drive(_) => ntfs::decide_engine(class, fs_name, volume_openable),
        _ => ntfs::decide_engine(class, None, false),
    }
}

/// An entry that is counted adds one to the entries, one to the files or to the
/// folders if it is one of them, and its own sizes to the sizes.
pub proof fn law_counting(s: SummaryView, d: NodeData)
    requires
        can_count(s, d),
    ensures
        ({
            let t = counted(s, d);
            &&& t.entries == s.entries + 1
            &&& d.kind == NodeKind::File ==> t.files == s.files + 1 && t.dirs == s.dirs
            &&& d.kind == NodeKind::Directory ==> t.dirs == s.dirs + 1 && t.files == s.files
            &&& d.kind != NodeKind::File && d.kind != NodeKind::Directory ==> t.files == s.files
                && t.dirs == s.dirs
            &&& t.logical_size == s.logical_size + d.logical_size
            &&& t.allocated_size == s.allocated_size + d.allocated_size
            &&& t.unaccessible == s.unaccessible
            &&& t.errors == s.errors
            &&& t.root == s.root
            &&& t.cancelled == s.cancelled
        }),
{
}

/// A problem is added behind those before it, with its path and its message, and
/// nothing else of a summary changes.
pub proof fn law_problem_noted(s: SummaryView, path: Option<Seq<char>>, message: Seq<char>)
    ensures
        ({
            let t = with_problem(s, path, message);
            &&& t.errors.len() == s.errors.len() + 1
            &&& t.errors.last().path == path
            &&& t.errors.last().message == message
            &&& forall|i: int| 0 <= i < s.errors.len() ==> #[trigger] t.errors[i] == s.errors[i]
            &&& t.entries == s.entries
            &&& t.files == s.files
            &&& t.dirs == s.dirs
            &&& t.logical_size == s.logical_size
            &&& t.allocated_size == s.allocated_size
        }),
{
}

/// A scan waits while it pauses, unless it is to stop; it runs on as many threads as
/// are asked for, or as the machine has, or on four.
pub proof fn law_options(
    o: &ScanOptions,
    waits: bool,
    stops: bool,
    available: Option<usize>,
    n: usize,
)
    requires
        call_ensures(ScanOptions::must_wait, (o,), waits),
        call_ensures(ScanOptions::is_cancelled, (o,), stops),
        call_ensures(ScanOptions::worker_threads, (o, available), n),
    ensures
        waits <==> o.pause && !o.cancel,
        stops <==> o.cancel,
        o.threads > 0 ==> n == o.threads,
        o.threads == 0 && available is Some ==> Some(n) == available,
        o.threads == 0 && available is None ==> n == 4,
{
}

/// Progress shows the counts and sizes of the summary under their names.
pub proof fn law_summary_progress(s: &ScanSummary, p: ScanProgress)
    requires
        call_ensures(ScanSummary::progress, (s,), p),
    ensures
        p.entries == s.entries,
        p.files == s.files,
        p.dirs == s.dirs,
        p.logical_bytes == s.logical_size,
        p.allocated_bytes == s.allocated_size,
{
}

} // verus!
