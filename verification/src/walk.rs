//! The walk over directories: what becomes of each entry.
//!
//! Links are never followed; a link itself is a file with a mark. A file with
//! several hard links counts once: later links are nodes without size and with
//! a mark. A directory that cannot be read becomes an unaccessible node.
//! Directories have no size of their own.
use vstd::prelude::*;
use vstd::string::*;

use crate::hashing;
use crate::hashing::PairSet;
use crate::node::{NodeData, NodeFlags, NodeKind, NodeParams};
use crate::paths;
use crate::scan;
use crate::scan::{
    ProblemView, ScanError, ScanErrorView, ScanOptions, ScanProblem, ScanProgress, ScanSummary,
    SummaryView, Upsert, UpsertView,
};
use crate::time;
use crate::FileTime;

verus! {

/// How many entries lie between two reports of progress.
pub const PROGRESS_ENTRY_INTERVAL: u64 = 4096;

/// The last second that a file time can hold.
pub const LAST_SECOND: u64 = 910_692_730_085;

/// What kind of entry a directory holds.
#[derive(Clone, Copy, PartialEq, Eq, Debug, Structural)]
pub enum EntryType {
    File,
    Directory,
    Symlink,
    /// A socket, a device and the like.
    Other,
}

/// A time stamp as a file system gives it.
#[derive(Clone, Copy, PartialEq, Eq, Debug, Structural)]
pub enum Stamp {
    /// So many seconds after the start of 1970.
    After(u64),
    /// So many seconds before the start of 1970.
    Before(u64),
    /// The file system gives none.
    Unknown,
}

/// The seconds since 1970 of a time stamp. Without one, or before 1970, it is
/// the start of 1970.
pub open spec fn stamp_seconds(t: Stamp) -> u64 {
    match t {
        Stamp::After(n) => n,
        _ => 0,
    }
}

/// The file time of a time stamp.
pub fn stamp_to_filetime(t: Stamp) -> (ft: FileTime)
    requires
        stamp_seconds(t) <= LAST_SECOND,
    ensures
        ft == stamp_seconds(t) * time::TICKS_PER_SECOND + time::UNIX_EPOCH_TICKS,
{
    let secs: i64 = match t {
        Stamp::After(n) => n as i64,
        _ => 0,
    };
    time::filetime_from_unix(secs)
}

/// What is known about an entry.
#[derive(Clone, Copy, PartialEq, Eq, Debug)]
pub struct MetaValues {
    pub logical: u64,
    pub allocated: u64,
    /// What all hard links of a file share; only of files with several.
    pub hardlink_key: Option<(u64, u64)>,
    pub created: FileTime,
    pub accessed: FileTime,
    pub modified: FileTime,
}

/// What a Unix file system tells about an entry.
#[derive(Clone, Copy, PartialEq, Eq, Debug, Structural)]
pub struct UnixStat {
    pub len: u64,
    /// Blocks of 512 bytes.
    pub blocks: u64,
    pub nlink: u64,
    pub dev: u64,
    pub ino: u64,
    pub created: Stamp,
    /// Seconds since 1970.
    pub atime: i64,
    /// Seconds since 1970.
    pub mtime: i64,
}

/// Whether the times of an entry fit into file times.
pub open spec fn times_fit(st: UnixStat) -> bool {
    &&& stamp_seconds(st.created) <= LAST_SECOND
    &&& i64::MIN <= st.atime * time::TICKS_PER_SECOND
    &&& st.atime <= LAST_SECOND
    &&& i64::MIN <= st.mtime * time::TICKS_PER_SECOND
    &&& st.mtime <= LAST_SECOND
}

/// The bytes of blocks, up to what a number can hold.
pub open spec fn block_bytes(blocks: u64) -> u64 {
    if blocks * 512 <= u64::MAX {
        (blocks * 512) as u64
    } else {
        u64::MAX
    }
}

/// What is known about an entry of a Unix file system.
pub open spec fn meta_of(st: UnixStat, is_file: bool) -> MetaValues {
    MetaValues {
        logical: st.len,
        allocated: block_bytes(st.blocks),
        hardlink_key: if is_file && st.nlink > 1 {
            Some((st.dev, st.ino))
        } else {
            None
        },
        created: (stamp_seconds(st.created) * time::TICKS_PER_SECOND
            + time::UNIX_EPOCH_TICKS) as FileTime,
        accessed: (st.atime * time::TICKS_PER_SECOND + time::UNIX_EPOCH_TICKS) as FileTime,
        modified: (st.mtime * time::TICKS_PER_SECOND + time::UNIX_EPOCH_TICKS) as FileTime,
    }
}

fn bytes_of_blocks(blocks: u64) -> (n: u64)
    ensures
        n == block_bytes(blocks),
{
    match blocks.checked_mul(512) {
        Some(n) => n,
        None => u64::MAX,
    }
}

/// What is known about an entry of a Unix file system.
pub fn meta_values(st: &UnixStat, is_file: bool) -> (m: MetaValues)
    requires
        times_fit(*st),
    ensures
        m == meta_of(*st, is_file),
{
    MetaValues {
        logical: st.len,
        allocated: bytes_of_blocks(st.blocks),
        hardlink_key: if is_file && st.nlink > 1 {
            Some((st.dev, st.ino))
        } else {
            None
        },
        created: stamp_to_filetime(st.created),
        accessed: time::filetime_from_unix(st.atime),
        modified: time::filetime_from_unix(st.mtime),
    }
}

/// What a Unix file system tells about a single path that is asked for.
#[derive(Clone, Copy, PartialEq, Eq, Debug, Structural)]
pub struct PathStat {
    pub len: u64,
    /// Blocks of 512 bytes.
    pub blocks: u64,
    pub created: Stamp,
    pub accessed: Stamp,
    pub modified: Stamp,
}

/// What is known about a single path. It is not told apart from other hard links.
pub open spec fn path_meta_of(st: PathStat) -> MetaValues {
    MetaValues {
        logical: st.len,
        allocated: block_bytes(st.blocks),
        hardlink_key: None,
        created: (stamp_seconds(st.created) * time::TICKS_PER_SECOND
            + time::UNIX_EPOCH_TICKS) as FileTime,
        accessed: (stamp_seconds(st.accessed) * time::TICKS_PER_SECOND
            + time::UNIX_EPOCH_TICKS) as FileTime,
        modified: (stamp_seconds(st.modified) * time::TICKS_PER_SECOND
            + time::UNIX_EPOCH_TICKS) as FileTime,
    }
}

/// What is known about a single path.
pub fn path_meta_values(st: &PathStat) -> (m: MetaValues)
    requires
        stamp_seconds(st.created) <= LAST_SECOND,
        stamp_seconds(st.accessed) <= LAST_SECOND,
        stamp_seconds(st.modified) <= LAST_SECOND,
    ensures
        m == path_meta_of(*st),
{
    MetaValues {
        logical: st.len,
        allocated: bytes_of_blocks(st.blocks),
        hardlink_key: None,
        created: stamp_to_filetime(st.created),
        accessed: stamp_to_filetime(st.accessed),
        modified: stamp_to_filetime(st.modified),
    }
}

/// What the listing of a directory tells about an entry of a Windows file system.
#[derive(Clone, Copy, PartialEq, Eq, Debug)]
pub struct WindowsStat {
    pub len: u64,
    pub allocated: u64,
    /// What all hard links of a file share.
    pub hard_link: Option<(u64, u64)>,
    pub modified: Stamp,
}

/// Whether the allocated size of an entry is not to be believed, so that the
/// compressed size is to be asked for.
pub open spec fn doubtful(st: WindowsStat, is_file: bool) -> bool {
    st.allocated == 0 && is_file && st.len > 0
}

/// Whether the compressed size of an entry is to be asked for.
pub fn wants_compressed_size(st: &WindowsStat, is_file: bool) -> (r: bool)
    ensures
        r == doubtful(*st, is_file),
{
    st.allocated == 0 && is_file && st.len > 0
}

/// What is known about an entry of a Windows file system. Directories are listed
/// with one time only, which stands for all three.
pub open spec fn windows_meta_of(
    st: WindowsStat,
    is_file: bool,
    compressed: Option<u64>,
) -> MetaValues {
    let time = (stamp_seconds(st.modified) * time::TICKS_PER_SECOND
        + time::UNIX_EPOCH_TICKS) as FileTime;
    MetaValues {
        logical: st.len,
        allocated: if doubtful(st, is_file) {
            match compressed {
                Some(n) => n,
                None => st.len,
            }
        } else {
            st.allocated
        },
        hardlink_key: if is_file {
            st.hard_link
        } else {
            None
        },
        created: time,
        accessed: time,
        modified: time,
    }
}

/// What is known about an entry of a Windows file system, given its compressed
/// size if that was asked for and told.
pub fn windows_meta_values(st: &WindowsStat, is_file: bool, compressed: Option<u64>) -> (m:
    MetaValues)
    requires
        stamp_seconds(st.modified) <= LAST_SECOND,
    ensures
        m == windows_meta_of(*st, is_file, compressed),
{
    let time: FileTime = stamp_to_filetime(st.modified);
    MetaValues {
        logical: st.len,
        allocated: if wants_compressed_size(st, is_file) {
            match compressed {
                Some(n) => n,
                None => st.len,
            }
        } else {
            st.allocated
        },
        hardlink_key: if is_file {
            st.hard_link
        } else {
            None
        },
        created: time,
        accessed: time,
        modified: time,
    }
}

/// The kind of node that an entry becomes.
pub open spec fn kind_of(t: EntryType) -> NodeKind {
    if t == EntryType::Directory {
        NodeKind::Directory
    } else {
        NodeKind::File
    }
}

/// The flags of an entry: links are marked, and so are further hard links.
pub open spec fn flags_of(t: EntryType, alias: bool) -> u32 {
    (if t == EntryType::Symlink {
        NodeFlags::REPARSE_POINT
    } else {
        0u32
    }) | (if alias {
        NodeFlags::HARDLINK_ALIAS
    } else {
        0u32
    })
}

/// The node of an entry that could be read.
pub open spec fn entry_data(name: Seq<char>, t: EntryType, m: MetaValues, alias: bool) -> NodeData {
    let sized = t != EntryType::Directory && !alias;
    NodeData {
        name,
        kind: kind_of(t),
        flags: NodeFlags(flags_of(t, alias)),
        tag: None,
        logical_size: if sized {
            m.logical
        } else {
            0
        },
        allocated_size: if sized {
            m.allocated
        } else {
            0
        },
        ads_size: 0,
        created: m.created,
        accessed: m.accessed,
        modified: m.modified,
    }
}

/// The node of an entry that could not be read.
pub open spec fn denied_data(name: Seq<char>) -> NodeData {
    NodeData {
        flags: NodeFlags(NodeFlags::ACCESS_DENIED),
        ..NodeParams::blank(name, NodeKind::Unaccessible)
    }
}

fn entry_params(name: &str, t: EntryType, m: &MetaValues, alias: bool) -> (params: NodeParams)
    ensures
        params@ == entry_data(name@, t, *m, alias),
{
    let link: u32 = if t == EntryType::Symlink {
        NodeFlags::REPARSE_POINT
    } else {
        0
    };
    let again: u32 = if alias {
        NodeFlags::HARDLINK_ALIAS
    } else {
        0
    };
    let sized = t != EntryType::Directory && !alias;
    let kind = if t == EntryType::Directory {
        NodeKind::Directory
    } else {
        NodeKind::File
    };
    let params = NodeParams::named(name, kind).sizes(
        if sized {
            m.logical
        } else {
            0
        },
        if sized {
            m.allocated
        } else {
            0
        },
    ).flags(NodeFlags(link | again));
    NodeParams { created: m.created, accessed: m.accessed, modified: m.modified, ..params }
}

/// What a walk tells about an entry: what is known about it, or why nothing is.
pub enum Reading {
    Meta(MetaValues),
    Failed(String),
}

/// A reading in mathematical terms.
pub enum ReadingView {
    Meta(MetaValues),
    Failed(Seq<char>),
}

impl View for Reading {
    type V = ReadingView;

    open spec fn view(&self) -> ReadingView {
        match *self {
            Reading::Meta(m) => ReadingView::Meta(m),
            Reading::Failed(s) => ReadingView::Failed(s@),
        }
    }
}

/// Why an entry is unaccessible, if it is.
pub open spec fn refusal(reading: ReadingView, denied: Option<Seq<char>>) -> Option<Seq<char>> {
    match denied {
        Some(m) => Some(m),
        None => match reading {
            ReadingView::Failed(m) => Some(m),
            ReadingView::Meta(_) => None,
        },
    }
}

/// The key under which an entry's hard links are known.
pub open spec fn link_key(t: EntryType, reading: ReadingView, denied: Option<Seq<char>>) -> Option<
    (u64, u64),
> {
    match reading {
        ReadingView::Meta(m) => if denied is None && t == EntryType::File {
            m.hardlink_key
        } else {
            None
        },
        ReadingView::Failed(_) => None,
    }
}

/// The node that an entry becomes, given the hard links seen before.
pub open spec fn mapped(
    seen: Set<(u64, u64)>,
    name: Seq<char>,
    t: EntryType,
    reading: ReadingView,
    denied: Option<Seq<char>>,
) -> NodeData {
    if refusal(reading, denied) is Some {
        denied_data(name)
    } else {
        match link_key(t, reading, denied) {
            Some(key) => entry_data(name, t, reading->Meta_0, seen.contains(key)),
            None => entry_data(name, t, reading->Meta_0, false),
        }
    }
}

/// The hard links seen once an entry has been mapped.
pub open spec fn seen_after(
    seen: Set<(u64, u64)>,
    t: EntryType,
    reading: ReadingView,
    denied: Option<Seq<char>>,
) -> Set<(u64, u64)> {
    match link_key(t, reading, denied) {
        Some(key) => seen.insert(key),
        None => seen,
    }
}

/// The problem that an entry has, if it has one.
pub open spec fn problem_of(
    path: Seq<char>,
    reading: ReadingView,
    denied: Option<Seq<char>>,
) -> Option<ProblemView> {
    match refusal(reading, denied) {
        Some(message) => Some(ProblemView { path: Some(path), message }),
        None => None,
    }
}

/// The summary once an entry has been mapped.
pub open spec fn noted(
    s: SummaryView,
    path: Seq<char>,
    reading: ReadingView,
    denied: Option<Seq<char>>,
) -> SummaryView {
    match refusal(reading, denied) {
        Some(m) => SummaryView {
            unaccessible: (s.unaccessible + 1) as u64,
            ..scan::with_problem(s, Some(path), m)
        },
        None => s,
    }
}

/// Maps an entry to a node. An entry that could not be read is counted and
/// noted as a problem.
fn map_entry(
    seen: &mut PairSet,
    summary: &mut ScanSummary,
    path: &str,
    name: &str,
    t: EntryType,
    reading: &Reading,
    denied: Option<String>,
) -> (r: (NodeParams, Option<ScanProblem>))
    requires
        old(summary).unaccessible < u64::MAX,
    ensures
        r.0@ == mapped(
            hashing::pairs(*old(seen)),
            name@,
            t,
            reading@,
            scan::text_option(denied),
        ),
        hashing::pairs(*final(seen)) == seen_after(
            hashing::pairs(*old(seen)),
            t,
            reading@,
            scan::text_option(denied),
        ),
        final(summary)@ == noted(old(summary)@, path@, reading@, scan::text_option(denied)),
        scan::problem_option(r.1) == problem_of(path@, reading@, scan::text_option(denied)),
{
    if let Some(message) = denied {
        return unaccessible(summary, path, name, message);
    }
    match reading {
        Reading::Failed(m) => unaccessible(summary, path, name, m.clone()),
        Reading::Meta(m) => {
            let mut alias = false;
            if t == EntryType::File {
                if let Some(key) = m.hardlink_key {
                    alias = !hashing::insert_pair(seen, key);
                }
            }
            (entry_params(name, t, m, alias), None)
        },
    }
}

fn unaccessible(summary: &mut ScanSummary, path: &str, name: &str, message: String) -> (r: (
    NodeParams,
    Option<ScanProblem>,
))
    requires
        old(summary).unaccessible < u64::MAX,
    ensures
        r.0@ == denied_data(name@),
        scan::problem_option(r.1) == Some(
            ProblemView { path: Some(path@), message: message@ },
        ),
        final(summary)@ == (SummaryView {
            unaccessible: (old(summary)@.unaccessible + 1) as u64,
            ..scan::with_problem(old(summary)@, Some(path@), message@)
        }),
{
    summary.unaccessible = summary.unaccessible + 1;
    let told = summary.add_problem(Some(path.to_owned()), message);
    let params = NodeParams::named(name, NodeKind::Unaccessible).flags(
        NodeFlags(NodeFlags::ACCESS_DENIED),
    );
    (params, Some(told))
}

/// An entry that a walk came upon.
pub struct WalkEntry {
    pub path: String,
    /// The path of the directory that holds it.
    pub parent_path: String,
    /// 0 for the root of the walk.
    pub depth: usize,
    pub file_name: String,
    pub file_type: EntryType,
    pub reading: Reading,
    /// Why the entry cannot be opened as a directory, if it cannot.
    pub denied: Option<String>,
}

/// The name of an entry: the root of the walk has its whole path for a name.
pub open spec fn entry_name(e: WalkEntry) -> Seq<char> {
    if e.depth == 0 {
        e.path@
    } else {
        e.file_name@
    }
}

/// What a walk hands out.
pub enum WalkItem {
    Entry(WalkEntry),
    /// A problem that belongs to no path.
    Error(String),
}

/// What is to be done with an item.
pub enum WalkStep {
    /// Nothing.
    Skip,
    /// The scan failed.
    Fail(ScanError),
    /// The problem is to be handed on.
    Problem(ScanProblem),
    /// The node is to be handed on, with the problem that it has, if it has one,
    /// and the progress, if it is time for it.
    Emit(Upsert, Option<ScanProblem>, Option<ScanProgress>),
}

/// What was found at the root of a scan.
pub enum RootProbe {
    Found,
    NotFound,
    Unreadable(String),
}

/// What the walker remembers from entry to entry.
pub struct WalkScanner {
    seen_hardlinks: PairSet,
}

impl View for WalkScanner {
    type V = Set<(u64, u64)>;

    /// The hard links seen.
    closed spec fn view(&self) -> Set<(u64, u64)> {
        hashing::pairs(self.seen_hardlinks)
    }
}

impl Default for WalkScanner {
    fn default() -> (s: Self)
        ensures
            s@ == Set::<(u64, u64)>::empty(),
    {
        WalkScanner::new()
    }
}

impl WalkScanner {
    /// A walker that has seen nothing.
    pub fn new() -> (s: Self)
        ensures
            s@ == Set::<(u64, u64)>::empty(),
    {
        WalkScanner { seen_hardlinks: hashing::new_pairs() }
    }

    /// Starts a scan: it fails only where the root is not there or cannot be
    /// read.
    pub fn start(&mut self, root: &str, probe: RootProbe) -> (r: Result<WalkScan, ScanError>)
        ensures
            final(self)@ == Set::<(u64, u64)>::empty(),
            match r {
                Ok(w) => probe is Found && w.summary@ == scan::no_summary(root@)
                    && w.last_progress == 0,
                Err(e) => e@ == match probe {
                    RootProbe::Unreadable(m) => ScanErrorView::RootUnreadable {
                        path: root@,
                        message: m@,
                    },
                    _ => ScanErrorView::RootNotFound(root@),
                } && !(probe is Found),
            },
    {
        self.seen_hardlinks = hashing::new_pairs();
        match probe {
            RootProbe::Found => Ok(
                WalkScan { summary: ScanSummary::for_root(root.to_owned()), last_progress: 0 },
            ),
            RootProbe::NotFound => Err(ScanError::RootNotFound(root.to_owned())),
            RootProbe::Unreadable(message) => Err(
                ScanError::RootUnreadable { path: root.to_owned(), message },
            ),
        }
    }
}

/// A scan by walking, under way.
pub struct WalkScan {
    pub summary: ScanSummary,
    /// How many entries there were at the last report of progress.
    pub last_progress: u64,
}

/// The node of an entry as it is handed on.
pub open spec fn upsert_of(e: WalkEntry, d: NodeData) -> UpsertView {
    UpsertView {
        parent_path: if e.depth == 0 {
            None
        } else {
            Some(e.parent_path@)
        },
        path: e.path@,
        params: d,
    }
}

/// Whether it is time to report progress.
pub open spec fn due(entries: u64, last: u64) -> bool {
    entries - last >= PROGRESS_ENTRY_INTERVAL
}

/// The progress that a summary stands for.
pub open spec fn progress_of(s: SummaryView) -> ScanProgress {
    ScanProgress {
        entries: s.entries,
        files: s.files,
        dirs: s.dirs,
        logical_bytes: s.logical_size,
        allocated_bytes: s.allocated_size,
    }
}

/// The summary once an entry has been taken in.
pub open spec fn summary_after(s: SummaryView, seen: Set<(u64, u64)>, e: WalkEntry) -> SummaryView {
    let denied = scan::text_option(e.denied);
    scan::counted(
        noted(s, e.path@, e.reading@, denied),
        mapped(seen, entry_name(e), e.file_type, e.reading@, denied),
    )
}

impl WalkScan {
    /// Takes in what the walk handed out.
    ///
    /// Once the scan is cancelled, items are passed over until the walk ends.
    /// `reports` tells whether anyone asked for progress.
    pub fn step(
        &mut self,
        scanner: &mut WalkScanner,
        item: WalkItem,
        opts: &ScanOptions,
        reports: bool,
    ) -> (r: WalkStep)
        requires
            old(self).last_progress <= old(self).summary.entries,
            old(self).summary.unaccessible < u64::MAX,
            item matches WalkItem::Entry(e) ==> scan::can_count(
                old(self).summary@,
                mapped(
                    old(scanner)@,
                    entry_name(e),
                    e.file_type,
                    e.reading@,
                    scan::text_option(e.denied),
                ),
            ),
        ensures
            final(self).last_progress <= final(self).summary.entries,
            opts.cancel ==> r is Skip && final(scanner)@ == old(scanner)@
                && final(self).last_progress == old(self).last_progress && final(self).summary@ == (
            SummaryView { cancelled: true, ..old(self).summary@ }),
            !opts.cancel ==> match item {
                WalkItem::Error(m) => r matches WalkStep::Problem(p) && p@ == (ProblemView {
                    path: None,
                    message: m@,
                }) && final(scanner)@ == old(scanner)@
                    && final(self).last_progress == old(self).last_progress
                    && final(self).summary@ == scan::with_problem(old(self).summary@, None, m@),
                WalkItem::Entry(e) => if e.depth == 0 && e.denied is Some {
                    &&& r matches WalkStep::Fail(err) && err@ == (ScanErrorView::RootUnreadable {
                        path: e.path@,
                        message: e.denied->0@,
                    })
                    &&& final(scanner)@ == old(scanner)@
                    &&& final(self).last_progress == old(self).last_progress
                    &&& final(self).summary@ == old(self).summary@
                } else {
                    let denied = scan::text_option(e.denied);
                    let after = summary_after(old(self).summary@, old(scanner)@, e);
                    let report = reports && due(after.entries, old(self).last_progress);
                    &&& r matches WalkStep::Emit(u, told, p) && u@ == upsert_of(
                        e,
                        mapped(old(scanner)@, entry_name(e), e.file_type, e.reading@, denied),
                    ) && scan::problem_option(told) == problem_of(e.path@, e.reading@, denied)
                        && p == if report {
                        Some(progress_of(after))
                    } else {
                        None
                    }
                    &&& final(scanner)@ == seen_after(
                        old(scanner)@,
                        e.file_type,
                        e.reading@,
                        denied,
                    )
                    &&& final(self).summary@ == after
                    &&& final(self).last_progress == if report {
                        after.entries
                    } else {
                        old(self).last_progress
                    }
                },
            },
    {
        if opts.is_cancelled() {
            self.summary.cancelled = true;
            return WalkStep::Skip;
        }
        let entry = match item {
            WalkItem::Entry(e) => e,
            WalkItem::Error(message) => {
                let told = self.summary.add_problem(None, message);
                return WalkStep::Problem(told);
            },
        };
        let is_root = entry.depth == 0;
        if is_root {
            if let Some(m) = &entry.denied {
                return WalkStep::Fail(
                    ScanError::RootUnreadable { path: entry.path.clone(), message: m.clone() },
                );
            }
        }
        let denied: Option<String> = match &entry.denied {
            Some(m) => Some(m.clone()),
            None => None,
        };
        let (params, told) = map_entry(
            &mut scanner.seen_hardlinks,
            &mut self.summary,
            entry.path.as_str(),
            if is_root {
                entry.path.as_str()
            } else {
                entry.file_name.as_str()
            },
            entry.file_type,
            &entry.reading,
            denied,
        );
        self.summary.count(&params);
        let mut report: Option<ScanProgress> = None;
        if reports && self.summary.entries - self.last_progress >= PROGRESS_ENTRY_INTERVAL {
            self.last_progress = self.summary.entries;
            report = Some(self.summary.progress());
        }
        let parent_path = if is_root {
            None
        } else {
            Some(entry.parent_path.clone())
        };
        WalkStep::Emit(Upsert { parent_path, path: entry.path.clone(), params }, told, report)
    }

    /// Ends the scan.
    pub fn finish(self, elapsed_ms: u64) -> (s: ScanSummary)
        ensures
            s@ == (SummaryView { elapsed_ms, ..self.summary@ }),
    {
        let mut s = self.summary;
        s.elapsed_ms = elapsed_ms;
        s
    }
}

/// What is to be done with a directory before it is entered.
#[derive(Clone, Copy, PartialEq, Eq, Debug, Structural)]
pub enum Descent {
    Enter,
    /// The scan is to stop.
    Leave,
    /// The directory cannot be opened; this is to be remembered.
    Refuse,
}

/// Whether a walk goes into an entry. Only directories are tried out.
pub fn descent(cancelled: bool, t: EntryType, opens: bool) -> (d: Descent)
    ensures
        d == if cancelled {
            Descent::Leave
        } else if t == EntryType::Directory && !opens {
            Descent::Refuse
        } else {
            Descent::Enter
        },
{
    if cancelled {
        Descent::Leave
    } else if t == EntryType::Directory && !opens {
        Descent::Refuse
    } else {
        Descent::Enter
    }
}

/// The node of a single path, as found anew: hard links are not looked at.
pub open spec fn stat_data(path: Seq<char>, t: EntryType, m: MetaValues) -> NodeData {
    entry_data(
        match paths::file_name(path) {
            Some(n) => n,
            None => path,
        },
        t,
        m,
        false,
    )
}

/// The node of a single path, as found anew; none if there is nothing there any
/// more.
pub fn stat_entry(path: &str, found: Option<(EntryType, MetaValues)>) -> (r: Option<NodeParams>)
    ensures
        match (found, r) {
            (Some((t, m)), Some(params)) => params@ == stat_data(path@, t, m),
            (None, None) => true,
            _ => false,
        },
{
    match found {
        None => None,
        Some((t, m)) => match paths::name_of(path) {
            Some(name) => Some(entry_params(name.as_str(), t, &m, false)),
            None => Some(entry_params(path, t, &m, false)),
        },
    }
}

/// Directories have no size of their own: their bytes come from what is in them.
pub proof fn law_directories_weigh_nothing(
    seen: Set<(u64, u64)>,
    name: Seq<char>,
    reading: ReadingView,
    denied: Option<Seq<char>>,
)
    ensures
        ({
            let d = mapped(seen, name, EntryType::Directory, reading, denied);
            d.logical_size == 0 && d.allocated_size == 0
        }),
{
}

/// A symbolic link that can be read is itself counted, as a file that is marked.
pub proof fn law_links_are_marked(seen: Set<(u64, u64)>, name: Seq<char>, m: MetaValues)
    ensures
        ({
            let d = mapped(seen, name, EntryType::Symlink, ReadingView::Meta(m), None);
            &&& d.kind == NodeKind::File
            &&& d.logical_size == m.logical
            &&& d.allocated_size == m.allocated
            &&& d.flags.has(NodeFlags(NodeFlags::REPARSE_POINT))
        }),
{
    let p = NodeFlags::REPARSE_POINT;
    assert((p | 0u32) & p == p) by (bit_vector);
}

/// Every problem that is handed on with an entry is kept in the summary, and no
/// other.
pub proof fn law_problems_are_kept(
    s: SummaryView,
    path: Seq<char>,
    reading: ReadingView,
    denied: Option<Seq<char>>,
)
    ensures
        noted(s, path, reading, denied).errors == match problem_of(path, reading, denied) {
            Some(p) => s.errors.push(p),
            None => s.errors,
        },
{
}

/// What cannot be read is marked as such, and counted among what cannot be read.
pub proof fn law_denied_is_marked(
    seen: Set<(u64, u64)>,
    s: SummaryView,
    path: Seq<char>,
    name: Seq<char>,
    t: EntryType,
    reading: ReadingView,
    denied: Option<Seq<char>>,
)
    requires
        refusal(reading, denied) is Some,
        s.unaccessible < u64::MAX,
    ensures
        ({
            let d = mapped(seen, name, t, reading, denied);
            &&& d.kind == NodeKind::Unaccessible
            &&& d.flags.has(NodeFlags(NodeFlags::ACCESS_DENIED))
            &&& d.logical_size == 0
            &&& d.allocated_size == 0
            &&& noted(s, path, reading, denied).unaccessible == s.unaccessible + 1
        }),
{
    let f = NodeFlags::ACCESS_DENIED;
    assert(f & f == f) by (bit_vector);
}

/// Of two hard links of a file the first counts in full and the second not at
/// all.
pub proof fn law_hardlinks_count_once(
    seen: Set<(u64, u64)>,
    a: Seq<char>,
    b: Seq<char>,
    m: MetaValues,
    n: MetaValues,
)
    requires
        m.hardlink_key is Some,
        m.hardlink_key == n.hardlink_key,
        !seen.contains(m.hardlink_key->0),
    ensures
        ({
            let first = mapped(seen, a, EntryType::File, ReadingView::Meta(m), None);
            let after = seen_after(seen, EntryType::File, ReadingView::Meta(m), None);
            let second = mapped(after, b, EntryType::File, ReadingView::Meta(n), None);
            &&& first.logical_size == m.logical
            &&& first.allocated_size == m.allocated
            &&& second.logical_size == 0
            &&& second.allocated_size == 0
            &&& second.flags.has(NodeFlags(NodeFlags::HARDLINK_ALIAS))
        }),
{
    assert((0u32 | 0x8_0000) & 0x8_0000 == 0x8_0000) by (bit_vector);
}

/// The node of an entry that can be read has its name and its own times, and the
/// sizes unless it is a directory or a further hard link; only directories become
/// folders.
pub proof fn law_entries_keep_their_values(
    seen: Set<(u64, u64)>,
    name: Seq<char>,
    t: EntryType,
    m: MetaValues,
)
    ensures
        ({
            let d = mapped(seen, name, t, ReadingView::Meta(m), None);
            &&& d.name == name
            &&& d.created == m.created
            &&& d.accessed == m.accessed
            &&& d.modified == m.modified
            &&& d.tag is None
            &&& d.ads_size == 0
            &&& d.kind == NodeKind::Directory <==> t == EntryType::Directory
            &&& d.kind == NodeKind::Directory || d.kind == NodeKind::File
            &&& t != EntryType::Directory && !(t == EntryType::File && m.hardlink_key is Some
                && seen.contains(m.hardlink_key->0)) ==> d.logical_size == m.logical
                && d.allocated_size == m.allocated
            &&& (d.flags.0 & NodeFlags::REPARSE_POINT == NodeFlags::REPARSE_POINT) <==> t
                == EntryType::Symlink
            &&& (d.flags.0 & NodeFlags::HARDLINK_ALIAS == NodeFlags::HARDLINK_ALIAS) <==> (t
                == EntryType::File && m.hardlink_key is Some && seen.contains(m.hardlink_key->0))
            &&& d.flags.0 & NodeFlags::ACCESS_DENIED == 0
        }),
{
    lemma_marks();
}

/// The node of a single path has the last part of the path for its name, the
/// entry's own times, and its sizes unless it is a directory.
pub proof fn law_single_paths_keep_their_values(path: Seq<char>, t: EntryType, m: MetaValues)
    ensures
        ({
            let d = stat_data(path, t, m);
            &&& paths::file_name(path) matches Some(n) ==> d.name == n
            &&& d.created == m.created
            &&& d.accessed == m.accessed
            &&& d.modified == m.modified
            &&& d.tag is None
            &&& d.ads_size == 0
            &&& d.kind == NodeKind::Directory <==> t == EntryType::Directory
            &&& t != EntryType::Directory ==> d.kind == NodeKind::File && d.logical_size == m.logical
                && d.allocated_size == m.allocated
            &&& t == EntryType::Directory ==> d.logical_size == 0 && d.allocated_size == 0
            &&& (d.flags.0 & NodeFlags::REPARSE_POINT == NodeFlags::REPARSE_POINT) <==> t
                == EntryType::Symlink
            &&& d.flags.0 & NodeFlags::HARDLINK_ALIAS == 0
        }),
{
    lemma_marks();
}

proof fn lemma_marks()
    ensures
        (0x1_0000u32 | 0u32) & 0x1_0000 == 0x1_0000,
        (0x1_0000u32 | 0u32) & 0x8_0000 == 0,
        (0u32 | 0x8_0000u32) & 0x8_0000 == 0x8_0000,
        (0u32 | 0x8_0000u32) & 0x1_0000 == 0,
        (0u32 | 0u32) & 0x8_0000 == 0,
        (0u32 | 0u32) & 0x1_0000 == 0,
        (0x1_0000u32 | 0u32) & 0x4_0000 == 0,
        (0u32 | 0x8_0000u32) & 0x4_0000 == 0,
        (0u32 | 0u32) & 0x4_0000 == 0,
{
    assert((0x1_0000u32 | 0u32) & 0x1_0000 == 0x1_0000 && (0x1_0000u32 | 0u32) & 0x8_0000 == 0 && (
    0u32 | 0x8_0000u32) & 0x8_0000 == 0x8_0000 && (0u32 | 0x8_0000u32) & 0x1_0000 == 0 && (0u32
        | 0u32) & 0x8_0000 == 0 && (0u32 | 0u32) & 0x1_0000 == 0 && (0x1_0000u32 | 0u32) & 0x4_0000
        == 0 && (0u32 | 0x8_0000u32) & 0x4_0000 == 0 && (0u32 | 0u32) & 0x4_0000 == 0)
        by (bit_vector);
}

/// What a Unix file system tells is taken over field by field: the length is the
/// logical size, blocks of 512 bytes are the allocated one, and each time is a
/// count of ticks of 100 nanoseconds since 1601.
pub proof fn law_unix_entries(st: UnixStat, is_file: bool)
    requires
        times_fit(st),
        st.blocks * 512 <= u64::MAX,
    ensures
        ({
            let m = meta_of(st, is_file);
            &&& m.logical == st.len
            &&& m.allocated == 512 * st.blocks
            &&& m.accessed == st.atime * 10_000_000 + 116_444_736_000_000_000
            &&& m.modified == st.mtime * 10_000_000 + 116_444_736_000_000_000
            &&& st.created matches Stamp::After(n) ==> m.created == n * 10_000_000
                + 116_444_736_000_000_000
            &&& !(st.created is After) ==> m.created == 116_444_736_000_000_000
            &&& m.hardlink_key is Some <==> is_file && st.nlink > 1
            &&& m.hardlink_key matches Some(k) ==> k == (st.dev, st.ino)
        }),
{
}

/// What is told about a single path is taken over field by field.
pub proof fn law_single_paths(st: PathStat)
    requires
        stamp_seconds(st.created) <= LAST_SECOND,
        stamp_seconds(st.accessed) <= LAST_SECOND,
        stamp_seconds(st.modified) <= LAST_SECOND,
        st.blocks * 512 <= u64::MAX,
    ensures
        ({
            let m = path_meta_of(st);
            &&& m.logical == st.len
            &&& m.allocated == 512 * st.blocks
            &&& m.hardlink_key is None
            &&& st.created matches Stamp::After(n) ==> m.created == n * 10_000_000
                + 116_444_736_000_000_000
            &&& st.accessed matches Stamp::After(n) ==> m.accessed == n * 10_000_000
                + 116_444_736_000_000_000
            &&& st.modified matches Stamp::After(n) ==> m.modified == n * 10_000_000
                + 116_444_736_000_000_000
        }),
{
}

/// A Windows listing gives one time, which stands for all three. Its allocated
/// size is believed unless it is zero for a file that has content; the compressed
/// size is taken in its place, and without one the length.
pub proof fn law_windows_entries(st: WindowsStat, is_file: bool, compressed: Option<u64>)
    requires
        stamp_seconds(st.modified) <= LAST_SECOND,
    ensures
        ({
            let m = windows_meta_of(st, is_file, compressed);
            &&& m.logical == st.len
            &&& st.allocated > 0 || !is_file || st.len == 0 ==> m.allocated == st.allocated
            &&& st.allocated == 0 && is_file && st.len > 0 && compressed is Some ==> m.allocated
                == compressed->0
            &&& st.allocated == 0 && is_file && st.len > 0 && compressed is None ==> m.allocated
                == st.len
            &&& is_file ==> m.hardlink_key == st.hard_link
            &&& !is_file ==> m.hardlink_key is None
            &&& m.created == m.modified
            &&& m.accessed == m.modified
            &&& st.modified matches Stamp::After(n) ==> m.modified == n * 10_000_000
                + 116_444_736_000_000_000
        }),
{
}

/// A walk goes into what it can open, remembers a folder that it cannot, and goes
/// nowhere once it is cancelled.
pub proof fn law_descent(cancelled: bool, t: EntryType, opens: bool, d: Descent)
    requires
        call_ensures(descent, (cancelled, t, opens), d),
    ensures
        cancelled ==> d == Descent::Leave,
        !cancelled && t == EntryType::Directory && !opens ==> d == Descent::Refuse,
        !cancelled && (t != EntryType::Directory || opens) ==> d == Descent::Enter,
{
}

/// The node of an entry is handed on under its path, below the folder that holds it;
/// where a walk starts there is none.
pub proof fn law_handed_on(e: WalkEntry, d: NodeData)
    ensures
        upsert_of(e, d).path == e.path@,
        upsert_of(e, d).params == d,
        e.depth > 0 ==> upsert_of(e, d).parent_path == Some(e.parent_path@) && entry_name(e)
            == e.file_name@,
        e.depth == 0 ==> upsert_of(e, d).parent_path is None && entry_name(e) == e.path@,
{
}

/// Progress is told every 4096 entries, with the counts and sizes so far.
pub proof fn law_progress(s: SummaryView, entries: u64, last: u64)
    requires
        last <= entries,
    ensures
        due(entries, last) <==> entries - last >= 4096,
        progress_of(s).entries == s.entries,
        progress_of(s).files == s.files,
        progress_of(s).dirs == s.dirs,
        progress_of(s).logical_bytes == s.logical_size,
        progress_of(s).allocated_bytes == s.allocated_size,
{
}

} // verus!
