//! The scan of a volume by its master file table.
//!
//! All file records are gathered first, then each file is opened for its sizes
//! and times, then the records below the root of the scan are handed on, parents
//! before children. Directories have no size of their own; links are marked
//! files. Records whose file reference number came before are further hard links:
//! nodes without size, with a mark.
use vstd::prelude::*;
use vstd::string::*;

use crate::hashing;
use crate::hashing::NumberSet;
use crate::mft_table;
use crate::mft_table::{MftRecord, MftTable, PathCache, RecordView};
use crate::node::{NodeData, NodeFlags, NodeKind, NodeParams};
use crate::ntfs;
use crate::ntfs::PathClass;
use crate::scan;
use crate::scan::{
    ProblemView, ScanError, ScanErrorView, ScanProblem, ScanSummary, SummaryView, Upsert, UpsertView,
};
use crate::text;
use crate::usn;
use crate::walk::RootProbe;
use crate::FileTime;

verus! {

/// How many chunks of records lie between two reports of progress.
pub const PROGRESS_RECORD_INTERVAL: u64 = 8192;

/// How many files are opened between two looks at whether the scan is cancelled.
pub const CANCEL_CHECK_INTERVAL: usize = 256;

/// What is known about an open file.
#[derive(Clone, Copy, PartialEq, Eq, Debug)]
pub struct FileMeta {
    pub logical: u64,
    pub allocated: u64,
    /// The number of hard links.
    pub links: u32,
    pub created: FileTime,
    pub accessed: FileTime,
    pub modified: FileTime,
}

/// A number in two halves.
pub open spec fn two_halves(high: u32, low: u32) -> int {
    high * 0x1_0000_0000 + low
}

fn whole(high: u32, low: u32) -> (n: u64)
    ensures
        n == two_halves(high, low),
{
    high as u64 * 0x1_0000_0000 + low as u64
}

/// A file time in two halves.
pub fn filetime_to_i64(high: u32, low: u32) -> (ft: FileTime)
    ensures
        ft == two_halves(high, low) as u64 as i64,
{
    whole(high, low) as i64
}

/// The allocated size of a file: one of zero for a file with contents is not to
/// be believed.
pub open spec fn believed_allocation(logical: u64, allocation: i64) -> u64 {
    if allocation > 0 {
        allocation as u64
    } else if logical > 0 {
        logical
    } else {
        0
    }
}

/// What is known about an open file, from what the volume tells: sizes and times
/// in two halves each.
pub fn file_meta(
    size: (u32, u32),
    allocation: i64,
    links: u32,
    created: (u32, u32),
    accessed: (u32, u32),
    modified: (u32, u32),
) -> (m: FileMeta)
    ensures
        m.logical == two_halves(size.0, size.1),
        m.allocated == believed_allocation(m.logical, allocation),
        m.links == links,
        m.created == two_halves(created.0, created.1) as u64 as i64,
        m.accessed == two_halves(accessed.0, accessed.1) as u64 as i64,
        m.modified == two_halves(modified.0, modified.1) as u64 as i64,
{
    let logical: u64 = whole(size.0, size.1);
    let allocated: u64 = if allocation > 0 {
        allocation as u64
    } else {
        logical
    };
    FileMeta {
        logical,
        allocated,
        links,
        created: filetime_to_i64(created.0, created.1),
        accessed: filetime_to_i64(accessed.0, accessed.1),
        modified: filetime_to_i64(modified.0, modified.1),
    }
}

/// Whether a record becomes a directory: links do not.
pub open spec fn holds_children(r: RecordView) -> bool {
    ntfs::directory(r.file_attributes) && !ntfs::reparse_point(r.file_attributes)
}

/// Whether a record is a file with several hard links.
pub open spec fn shared(r: RecordView, meta: Option<FileMeta>) -> bool {
    !holds_children(r) && (meta matches Some(m) && m.links > 1)
}

/// The node of a record, given the files with several hard links seen before.
pub open spec fn record_data(
    seen: Set<u128>,
    frn: u128,
    r: RecordView,
    meta: Option<FileMeta>,
    name: Seq<char>,
) -> NodeData {
    let alias = shared(r, meta) && seen.contains(frn);
    let sized = !holds_children(r) && !alias;
    NodeData {
        name,
        kind: if holds_children(r) {
            NodeKind::Directory
        } else {
            NodeKind::File
        },
        flags: NodeFlags(
            if alias {
                ntfs::flags_of(r.file_attributes) | NodeFlags::HARDLINK_ALIAS
            } else {
                ntfs::flags_of(r.file_attributes)
            },
        ),
        tag: None,
        logical_size: match meta {
            Some(m) => if sized {
                m.logical
            } else {
                0
            },
            None => 0,
        },
        allocated_size: match meta {
            Some(m) => if sized {
                m.allocated
            } else {
                0
            },
            None => 0,
        },
        ads_size: 0,
        created: match meta {
            Some(m) => m.created,
            None => r.timestamp,
        },
        accessed: match meta {
            Some(m) => m.accessed,
            None => r.timestamp,
        },
        modified: match meta {
            Some(m) => m.modified,
            None => r.timestamp,
        },
    }
}

/// The files with several hard links seen, with one more.
pub open spec fn seen_with(
    seen: Set<u128>,
    frn: u128,
    r: RecordView,
    meta: Option<FileMeta>,
) -> Set<u128> {
    if shared(r, meta) {
        seen.insert(frn)
    } else {
        seen
    }
}

/// The scanner of master file tables.
pub struct MftScanner {
    seen_frns: NumberSet,
}

impl View for MftScanner {
    type V = Set<u128>;

    /// The files with several hard links seen.
    closed spec fn view(&self) -> Set<u128> {
        hashing::numbers(self.seen_frns)
    }
}

impl Default for MftScanner {
    fn default() -> (s: Self)
        ensures
            s@ == Set::<u128>::empty(),
    {
        MftScanner::new()
    }
}

impl MftScanner {
    /// A scanner that has seen nothing.
    pub fn new() -> (s: Self)
        ensures
            s@ == Set::<u128>::empty(),
    {
        MftScanner { seen_frns: hashing::new_numbers() }
    }

    /// Starts a scan, and tells the letter of the drive to open. It fails where
    /// the root is not there, cannot be read, or is on no drive.
    pub fn start(&mut self, root: &str, probe: RootProbe) -> (r: Result<u8, ScanError>)
        ensures
            final(self)@ == Set::<u128>::empty(),
            match probe {
                RootProbe::NotFound => r matches Err(e) && e@ == ScanErrorView::RootNotFound(root@),
                RootProbe::Unreadable(m) => r matches Err(e) && e@ == (
                ScanErrorView::RootUnreadable { path: root@, message: m@ }),
                RootProbe::Found => match ntfs::class_of(root@) {
                    PathClass::Drive(letter) => r matches Ok(l) && l == letter,
                    _ => r matches Err(e) && e@ == ScanErrorView::NotALocalVolume(root@),
                },
            },
    {
        self.seen_frns = hashing::new_numbers();
        match probe {
            RootProbe::NotFound => Err(ScanError::RootNotFound(root.to_owned())),
            RootProbe::Unreadable(message) => Err(
                ScanError::RootUnreadable { path: root.to_owned(), message },
            ),
            RootProbe::Found => match ntfs::classify_path(root) {
                PathClass::Drive(letter) => Ok(letter),
                _ => Err(ScanError::NotALocalVolume(root.to_owned())),
            },
        }
    }

    /// The node of a record.
    fn node_params(
        &mut self,
        frn: u128,
        record: &MftRecord,
        meta: Option<FileMeta>,
        name: &str,
    ) -> (params: NodeParams)
        ensures
            params@ == record_data(old(self)@, frn, record@, meta, name@),
            final(self)@ == seen_with(old(self)@, frn, record@, meta),
    {
        let mut flags = ntfs::node_flags_from_file_attributes(record.file_attributes);
        let is_link = ntfs::is_reparse_point(record.file_attributes);
        let is_dir = ntfs::is_directory(record.file_attributes) && !is_link;
        let kind = if is_dir {
            NodeKind::Directory
        } else {
            NodeKind::File
        };
        let mut logical: u64 = 0;
        let mut allocated: u64 = 0;
        let mut created: FileTime = record.timestamp;
        let mut accessed: FileTime = record.timestamp;
        let mut modified: FileTime = record.timestamp;
        if let Some(m) = meta {
            if !is_dir {
                logical = m.logical;
                allocated = m.allocated;
                if m.links > 1 && !hashing::insert_number(&mut self.seen_frns, frn) {
                    logical = 0;
                    allocated = 0;
                    flags.insert(NodeFlags(NodeFlags::HARDLINK_ALIAS));
                }
            }
            created = m.created;
            accessed = m.accessed;
            modified = m.modified;
        }
        let params = NodeParams::named(name, kind).sizes(logical, allocated).flags(flags);
        NodeParams { created, accessed, modified, ..params }
    }
}

/// What came of taking in a chunk of records.
pub struct Taken {
    /// Where the next chunk starts, if there is one.
    pub next: Option<u64>,
    /// The problem to be handed on, if there was one.
    pub problem: Option<ScanProblem>,
}

/// Takes in a chunk of records that was read from `start_frn` on, and tells from
/// where to go on, if there is more. An empty chunk ends the table, and so does
/// one without records or one that leads nowhere.
pub fn take_chunk(table: &mut MftTable, summary: &mut ScanSummary, chunk: &[u8], start_frn: u64) -> (r:
    Result<Taken, ScanError>)
    requires
        old(table).wf(),
    ensures
        final(table).wf(),
        if chunk@.len() == 0 {
            &&& r matches Ok(t) && t.next is None && t.problem is None
            &&& final(table)@ == old(table)@
            &&& final(summary)@ == old(summary)@
        } else if chunk@.len() < 8 {
            &&& final(table)@ == old(table)@
            &&& final(summary)@ == old(summary)@
            &&& r matches Err(e) && e@ == ScanErrorView::VolumeError(
                "USN record parse: "@ + usn::described(
                    usn::UsnParseError::Truncated {
                        record_len: 8,
                        remaining: chunk@.len() as usize,
                    },
                ),
            )
        } else {
            let next = usn::num(chunk@, 0, 8) as u64;
            let found = usn::records(chunk@.skip(8));
            let message = "skipped "@ + text::dec(found.1) + " unparseable USN record(s)"@;
            &&& r matches Ok(t) && t.next == if chunk@.len() <= 8 || next == start_frn {
                None
            } else {
                Some(next)
            } && scan::problem_option(t.problem) == if found.1 > 0 {
                Some(ProblemView { path: None, message })
            } else {
                None
            }
            &&& final(table)@ == mft_table::gathered(old(table)@, found.0)
            &&& final(summary)@ == if found.1 > 0 {
                scan::with_problem(old(summary)@, None, message)
            } else {
                old(summary)@
            }
        },
{
    let n: usize = chunk.len();
    if n == 0 {
        return Ok(Taken { next: None, problem: None });
    }
    match usn::parse_buffer(chunk) {
        Err(e) => {
            let mut message = "USN record parse: ".to_owned();
            message.append(e.describe().as_str());
            Err(ScanError::VolumeError(message))
        },
        Ok((next, list, skipped)) => {
            let mut problem: Option<ScanProblem> = None;
            if skipped > 0 {
                let mut message = "skipped ".to_owned();
                text::push_decimal(&mut message, skipped as u64);
                message.append(" unparseable USN record(s)");
                problem = Some(summary.add_problem(None, message));
            }
            table.gather_all(list);
            let next: Option<u64> = if n <= 8 || next == start_frn {
                None
            } else {
                Some(next)
            };
            Ok(Taken { next, problem })
        },
    }
}

/// Whether it is time to report progress while records are gathered.
pub fn chunk_due(chunks: u64) -> (r: bool)
    ensures
        r == (chunks % PROGRESS_RECORD_INTERVAL == 0),
{
    chunks % PROGRESS_RECORD_INTERVAL == 0
}

/// Whether it is time to look at whether the scan is cancelled while files are
/// opened.
pub fn cancel_check_due(opened: usize) -> (r: bool)
    ensures
        r == (opened % CANCEL_CHECK_INTERVAL == 0),
{
    opened % CANCEL_CHECK_INTERVAL == 0
}

/// What came of opening a file.
pub enum Opening {
    /// It has not been tried.
    Untried,
    Opened(FileMeta),
    Failed(String),
}

/// What came of opening files, record by record.
pub struct Openings {
    list: Vec<Opening>,
}

/// What is known about a file after it was opened.
pub open spec fn meta_in(o: Opening) -> Option<FileMeta> {
    match o {
        Opening::Opened(m) => Some(m),
        _ => None,
    }
}

impl View for Openings {
    type V = Seq<Opening>;

    closed spec fn view(&self) -> Seq<Opening> {
        self.list@
    }
}

impl Openings {
    /// No file has been opened.
    pub fn new(table: &MftTable) -> (o: Self)
        requires
            table.wf(),
        ensures
            o@.len() == table@.records.len(),
            forall|i: int| 0 <= i < o@.len() ==> (#[trigger] o@[i]) is Untried,
    {
        let n: usize = table.records().len();
        let mut list: Vec<Opening> = Vec::new();
        for i in 0..n
            invariant
                list@.len() == i,
                forall|j: int| 0 <= j < i ==> (#[trigger] list@[j]) is Untried,
        {
            list.push(Opening::Untried);
        }
        Openings { list }
    }

    /// Notes what came of opening the file of a record.
    pub fn note(&mut self, i: usize, outcome: Result<FileMeta, String>)
        requires
            i < old(self)@.len(),
        ensures
            final(self)@ == old(self)@.update(
                i as int,
                match outcome {
                    Ok(m) => Opening::Opened(m),
                    Err(e) => Opening::Failed(e),
                },
            ),
    {
        self.list.set(
            i,
            match outcome {
                Ok(m) => Opening::Opened(m),
                Err(e) => Opening::Failed(e),
            },
        );
    }
}

/// Whether a path is a drive and nothing more.
pub open spec fn bare_drive(path: Seq<char>) -> bool {
    path.len() == 2 && path[1] == ':'
}

/// A Windows path with one more part, which has no drive and no separator at its
/// start.
pub open spec fn windows_joined(path: Seq<char>, part: Seq<char>) -> Seq<char> {
    if path.len() == 0 || ntfs::is_separator(path.last()) || bare_drive(path) {
        path + part
    } else {
        path.push('\\') + part
    }
}

fn windows_join(path: &str, part: &str) -> (r: String)
    ensures
        r@ == windows_joined(path@, part@),
{
    let n: usize = path.unicode_len();
    let mut s = path.to_owned();
    if n > 0 {
        let last = path.get_char(n - 1);
        let bare = n == 2 && last == ':';
        if last != '\\' && last != '/' && !bare {
            s.push('\\');
        }
    }
    s.append(part);
    proof {
        assert(s@ =~= windows_joined(path@, part@));
    }
    s
}

/// The records among the first `n` whose parent is the record at `i`.
pub open spec fn children(recs: Seq<RecordView>, i: int, n: nat) -> Seq<usize>
    decreases n,
{
    if n == 0 {
        Seq::empty()
    } else {
        let before = children(recs, i, (n - 1) as nat);
        if recs[n - 1].parent_frn == recs[i].frn {
            before.push((n - 1) as usize)
        } else {
            before
        }
    }
}

/// The children of a record are those whose parent it is.
proof fn lemma_children(recs: Seq<RecordView>, i: int, n: nat)
    requires
        0 <= i < recs.len(),
        n <= recs.len() <= usize::MAX,
    ensures
        children(recs, i, n).no_duplicates(),
        forall|j: usize| #[trigger]
            children(recs, i, n).contains(j) <==> j < n && recs[j as int].parent_frn == recs[i].frn,
    decreases n,
{
    if n > 0 {
        let before = children(recs, i, (n - 1) as nat);
        lemma_children(recs, i, (n - 1) as nat);
        let now = children(recs, i, n);
        assert forall|j: usize| #[trigger] now.contains(j) <==> j < n && recs[j as int].parent_frn
            == recs[i].frn by {
            if now.contains(j) {
                let k = now.index_of(j);
                if k < before.len() {
                    assert(before[k] == j);
                    assert(before.contains(j));
                }
            }
            if j < n && recs[j as int].parent_frn == recs[i].frn {
                if j < n - 1 {
                    assert(before.contains(j));
                    let k = before.index_of(j);
                    assert(now[k] == j);
                } else {
                    assert(now.last() == j);
                }
            }
        }
        assert forall|a: int, b: int| 0 <= a < now.len() && 0 <= b < now.len() && a != b implies now[a]
            != now[b] by {
            if a < before.len() {
                assert(before.contains(before[a]));
            }
            if b < before.len() {
                assert(before.contains(before[b]));
            }
        }
    } else {
        assert forall|j: usize| !(#[trigger] children(recs, i, n).contains(j)) by {}
    }
}

/// Whether going up `k` times from a record leads to the root of the scan, by
/// directories only.
pub open spec fn reaches(recs: Seq<RecordView>, root: int, i: int, k: nat) -> bool
    decreases k,
{
    if k == 0 {
        i == root
    } else {
        let up = mft_table::slot(recs, recs[i].parent_frn);
        &&& i != root
        &&& 0 <= i < recs.len()
        &&& mft_table::known(recs, recs[i].parent_frn)
        &&& holds_children(recs[up])
        &&& reaches(recs, root, up, (k - 1) as nat)
    }
}

/// Whether a record is in the subtree of the root of the scan.
pub open spec fn in_subtree(recs: Seq<RecordView>, root: int, i: int) -> bool {
    exists|k: nat| reaches(recs, root, i, k)
}

/// A record that is still to be handed on.
pub struct Pending {
    pub slot: usize,
    pub path: String,
    /// The path of its parent; the root of the scan has none.
    pub parent: Option<String>,
}

/// What is to be done next.
pub enum EmitStep {
    /// All records were handed on.
    Done,
    /// The scan is cancelled.
    Cancelled,
    /// The node is to be handed on, with the problem that it has, if it has one.
    Emit(Upsert, Option<ScanProblem>),
}

/// The handing on of the records of a subtree.
pub struct MftEmission {
    root: usize,
    kids: Vec<Vec<usize>>,
    stack: Vec<Pending>,
    done: Ghost<Seq<usize>>,
}

/// A record that is still to be handed on, in mathematical terms.
#[verifier::ext_equal]
pub struct PendingView {
    pub slot: usize,
    pub path: Seq<char>,
    pub parent: Option<Seq<char>>,
}

impl View for Pending {
    type V = PendingView;

    open spec fn view(&self) -> PendingView {
        PendingView {
            slot: self.slot,
            path: self.path@,
            parent: scan::text_option(self.parent),
        }
    }
}

/// The records still to be handed on, in mathematical terms.
pub open spec fn pending_views(stack: Seq<Pending>) -> Seq<PendingView> {
    Seq::new(stack.len(), |k: int| stack[k]@)
}

/// The places of the records still to be handed on.
pub open spec fn slots_of(stack: Seq<PendingView>) -> Seq<usize> {
    Seq::new(stack.len(), |k: int| stack[k].slot)
}

/// The children of a directory as records to be handed on; the root of the scan
/// is nobody's child.
pub open spec fn offspring(
    recs: Seq<RecordView>,
    root: usize,
    path: Seq<char>,
    kids: Seq<usize>,
) -> Seq<PendingView>
    decreases kids.len(),
{
    if kids.len() == 0 {
        Seq::empty()
    } else {
        let before = offspring(recs, root, path, kids.drop_last());
        let slot = kids.last();
        if slot == root {
            before
        } else {
            before.push(
                PendingView {
                    slot,
                    path: windows_joined(path, recs[slot as int].name),
                    parent: Some(path),
                },
            )
        }
    }
}

/// What a record adds to those still to be handed on: its children, if it is a
/// directory.
pub open spec fn follow_ups(recs: Seq<RecordView>, root: usize, top: PendingView) -> Seq<
    PendingView,
> {
    if holds_children(recs[top.slot as int]) {
        offspring(recs, root, top.path, children(recs, top.slot as int, recs.len()))
    } else {
        Seq::empty()
    }
}

/// The children of a directory but for the root of the scan.
proof fn lemma_offspring(recs: Seq<RecordView>, root: usize, path: Seq<char>, kids: Seq<usize>)
    requires
        kids.no_duplicates(),
    ensures
        slots_of(offspring(recs, root, path, kids)).no_duplicates(),
        forall|j: usize| #[trigger]
            slots_of(offspring(recs, root, path, kids)).contains(j) <==> kids.contains(j) && j
                != root,
    decreases kids.len(),
{
    let now = slots_of(offspring(recs, root, path, kids));
    if kids.len() > 0 {
        let less = kids.drop_last();
        let before = slots_of(offspring(recs, root, path, less));
        lemma_offspring(recs, root, path, less);
        let last = kids.last();
        if last == root {
            assert(now =~= before);
        } else {
            assert(now =~= before.push(last));
        }
        assert forall|j: usize| #[trigger] now.contains(j) <==> kids.contains(j) && j != root by {
            if now.contains(j) {
                let k = now.index_of(j);
                if k < before.len() {
                    assert(before[k] == j);
                    assert(before.contains(j));
                    assert(less.contains(j));
                    let m = less.index_of(j);
                    assert(kids[m] == j);
                } else {
                    assert(kids[kids.len() - 1] == j);
                }
            }
            if kids.contains(j) && j != root {
                let m = kids.index_of(j);
                if m < less.len() {
                    assert(less[m] == j);
                    assert(less.contains(j));
                    assert(before.contains(j));
                    let k = before.index_of(j);
                    assert(now[k] == j);
                } else {
                    assert(now[now.len() - 1] == j);
                }
            }
        }
        assert forall|a: int, b: int| 0 <= a < now.len() && 0 <= b < now.len() && a != b implies now[a]
            != now[b] by {
            if last != root {
                assert(!less.contains(last)) by {
                    if less.contains(last) {
                        let m = less.index_of(last);
                        assert(kids[m] == kids[kids.len() - 1]);
                    }
                }
                if a < before.len() {
                    assert(before.contains(before[a]));
                }
                if b < before.len() {
                    assert(before.contains(before[b]));
                }
            }
        }
    } else {
        assert forall|j: usize| !(#[trigger] now.contains(j)) by {}
    }
}

/// Whether a record is handed on or about to be.
pub open spec fn touched(slots: Seq<usize>, done: Seq<usize>, i: usize) -> bool {
    done.contains(i) || slots.contains(i)
}

/// Whether a record is in the subtree of the root, and its parent was handed on.
pub open spec fn led_to(recs: Seq<RecordView>, root: usize, done: Seq<usize>, i: usize) -> bool {
    &&& i < recs.len()
    &&& in_subtree(recs, root as int, i as int)
    &&& i == root || done.contains(mft_table::slot(recs, recs[i as int].parent_frn) as usize)
}

/// Whether the children of a directory are handed on or about to be.
pub open spec fn all_touched(
    recs: Seq<RecordView>,
    root: usize,
    slots: Seq<usize>,
    done: Seq<usize>,
    i: usize,
) -> bool {
    holds_children(recs[i as int]) ==> forall|j: usize|
        j < recs.len() && recs[j as int].parent_frn == recs[i as int].frn && j != root
            ==> #[trigger] touched(slots, done, j)
}

/// How far the handing on of a subtree has come: records are handed on once, and
/// after their parents.
pub open spec fn under_way(
    recs: Seq<RecordView>,
    root: usize,
    slots: Seq<usize>,
    done: Seq<usize>,
) -> bool {
    &&& recs.len() <= usize::MAX
    &&& mft_table::distinct(recs)
    &&& root < recs.len()
    &&& slots.no_duplicates()
    &&& done.no_duplicates()
    &&& forall|i: usize| #[trigger] slots.contains(i) ==> !done.contains(i)
    &&& touched(slots, done, root)
    &&& forall|i: usize| #[trigger] touched(slots, done, i) ==> led_to(recs, root, done, i)
    &&& forall|i: usize| #[trigger]
        done.contains(i) ==> all_touched(recs, root, slots, done, i)
}

/// Handing on the next record keeps to the order.
proof fn lemma_emit(
    recs: Seq<RecordView>,
    root: usize,
    stack: Seq<PendingView>,
    done: Seq<usize>,
    after: Seq<PendingView>,
)
    requires
        under_way(recs, root, slots_of(stack), done),
        stack.len() > 0,
        after == stack.drop_last() + follow_ups(recs, root, stack.last()),
    ensures
        under_way(recs, root, slots_of(after), done.push(stack.last().slot)),
{
    let slots = slots_of(stack);
    let top = stack.last();
    let i = top.slot;
    let kids = children(recs, i as int, recs.len());
    let more = slots_of(follow_ups(recs, root, top));
    let now = slots_of(after);
    let done2 = done.push(i);
    let rest = slots.drop_last();
    assert(slots.last() == i);
    assert(slots.contains(i));
    assert(touched(slots, done, i));
    assert(led_to(recs, root, done, i));
    lemma_children(recs, i as int, recs.len());
    lemma_offspring(recs, root, top.path, kids);
    mft_table::lemma_slot(recs, i as int);
    assert(now =~= rest + more);
    assert(forall|j: usize| more.contains(j) ==> j < recs.len() && holds_children(recs[i as int])
        && recs[j as int].parent_frn == recs[i as int].frn && j != root);
    assert forall|j: usize| more.contains(j) implies !touched(slots, done, j) by {
        if touched(slots, done, j) {
            assert(led_to(recs, root, done, j));
            assert(mft_table::slot(recs, recs[j as int].parent_frn) == i);
            assert(done.contains(i));
        }
    }
    assert forall|j: usize| #[trigger] now.contains(j) implies rest.contains(j) || more.contains(
        j,
    ) by {
        let k = now.index_of(j);
        if k < rest.len() {
            assert(rest[k] == j);
        } else {
            assert(more[k - rest.len()] == j);
        }
    }
    assert forall|j: usize| rest.contains(j) implies #[trigger] now.contains(j) && slots.contains(j)
        && j != i by {
        let k = rest.index_of(j);
        assert(now[k] == j);
        assert(slots[k] == j);
        assert(slots[k] != slots[slots.len() - 1]);
    }
    assert forall|j: usize| more.contains(j) implies #[trigger] now.contains(j) by {
        let k = more.index_of(j);
        assert(now[rest.len() + k] == j);
    }
    assert forall|a: int, b: int| 0 <= a < now.len() && 0 <= b < now.len() && a != b implies now[a]
        != now[b] by {
        if a < rest.len() {
            assert(slots[a] == now[a]);
            assert(slots.contains(now[a]));
            assert(touched(slots, done, now[a]));
        } else {
            assert(more[a - rest.len()] == now[a]);
            assert(more.contains(now[a]));
        }
        if b < rest.len() {
            assert(slots[b] == now[b]);
            assert(slots.contains(now[b]));
            assert(touched(slots, done, now[b]));
        } else {
            assert(more[b - rest.len()] == now[b]);
            assert(more.contains(now[b]));
        }
    }
    assert forall|j: usize| #[trigger] done2.contains(j) <==> done.contains(j) || j == i by {
        if done2.contains(j) {
            let k = done2.index_of(j);
            if k < done.len() {
                assert(done[k] == j);
            }
        }
        if done.contains(j) {
            let k = done.index_of(j);
            assert(done2[k] == j);
        }
        if j == i {
            assert(done2[done.len() as int] == j);
        }
    }
    assert forall|a: int, b: int| 0 <= a < done2.len() && 0 <= b < done2.len() && a != b implies done2[a]
        != done2[b] by {
        if a < done.len() {
            assert(done.contains(done[a]));
        }
        if b < done.len() {
            assert(done.contains(done[b]));
        }
    }
    assert forall|j: usize| #[trigger] now.contains(j) implies !done2.contains(j) by {
        if more.contains(j) {
            assert(touched(slots, done, i));
            if done.contains(j) {
                assert(touched(slots, done, j));
            }
        } else {
            assert(rest.contains(j));
        }
    }
    assert forall|j: usize| touched(slots, done, j) implies touched(now, done2, j) by {
        if slots.contains(j) {
            let k = slots.index_of(j);
            if k < rest.len() {
                assert(rest[k] == j);
                assert(rest.contains(j));
            }
        }
    }
    assert(touched(now, done2, root));
    assert forall|j: usize| #[trigger] touched(now, done2, j) implies led_to(
        recs,
        root,
        done2,
        j,
    ) by {
        if more.contains(j) {
            let k = choose|k: nat| reaches(recs, root as int, i as int, k);
            assert(mft_table::slot(recs, recs[j as int].parent_frn) == i);
            assert(mft_table::known(recs, recs[j as int].parent_frn));
            assert(reaches(recs, root as int, j as int, k + 1));
        } else {
            assert(touched(slots, done, j));
            assert(led_to(recs, root, done, j));
        }
    }
    assert forall|d: usize| #[trigger] done2.contains(d) implies all_touched(
        recs,
        root,
        now,
        done2,
        d,
    ) by {
        assert forall|j: usize|
            holds_children(recs[d as int]) && j < recs.len() && recs[j as int].parent_frn
                == recs[d as int].frn && j != root implies #[trigger] touched(now, done2, j) by {
            if d == i {
                assert(kids.contains(j));
                assert(more.contains(j));
            } else {
                assert(all_touched(recs, root, slots, done, d));
                assert(touched(slots, done, j));
            }
        }
    }
}

/// Once no record is left, those handed on are the subtree of the root.
proof fn lemma_whole_subtree(recs: Seq<RecordView>, root: usize, done: Seq<usize>)
    requires
        under_way(recs, root, Seq::empty(), done),
    ensures
        done.no_duplicates(),
        forall|i: usize| #[trigger] done.contains(i) <==> in_subtree(recs, root as int, i as int),
{
    assert forall|i: usize| #[trigger] done.contains(i) <==> in_subtree(
        recs,
        root as int,
        i as int,
    ) by {
        if done.contains(i) {
            assert(touched(Seq::empty(), done, i));
            assert(led_to(recs, root, done, i));
        }
        if in_subtree(recs, root as int, i as int) {
            let k = choose|k: nat| reaches(recs, root as int, i as int, k);
            lemma_reached(recs, root, done, i, k);
        }
    }
}

proof fn lemma_reached(
    recs: Seq<RecordView>,
    root: usize,
    done: Seq<usize>,
    i: usize,
    k: nat,
)
    requires
        under_way(recs, root, Seq::empty(), done),
        reaches(recs, root as int, i as int, k),
    ensures
        done.contains(i),
    decreases k,
{
    let none = Seq::<usize>::empty();
    if k == 0 {
        assert(touched(none, done, root));
    } else {
        let up = mft_table::slot(recs, recs[i as int].parent_frn);
        assert(mft_table::is_at(recs, up, recs[i as int].parent_frn));
        lemma_reached(recs, root, done, up as usize, (k - 1) as nat);
        assert(all_touched(recs, root, none, done, up as usize));
        assert(touched(none, done, i));
    }
}

/// There are no more different places than there are places.
proof fn lemma_places(places: Seq<usize>, n: nat)
    requires
        places.no_duplicates(),
        forall|i: int| 0 <= i < places.len() ==> (#[trigger] places[i]) < n,
    ensures
        places.len() <= n,
{
    let range = vstd::set_lib::set_int_range(0, n as int);
    vstd::set_lib::lemma_int_range(0, n as int);
    let ints = Seq::new(places.len(), |k: int| places[k] as int);
    assert forall|a: int, b: int| 0 <= a < ints.len() && 0 <= b < ints.len() && a != b implies ints[a]
        != ints[b] by {
        assert(places[a] != places[b]);
    }
    ints.unique_seq_to_set();
    assert forall|x: int| ints.to_set().contains(x) implies range.contains(x) by {
        let k = ints.index_of(x);
        assert(places[k] < n);
    }
    vstd::set_lib::lemma_len_subset(ints.to_set(), range);
}

/// No more records are handed on than there are.
proof fn lemma_finite(recs: Seq<RecordView>, root: usize, slots: Seq<usize>, done: Seq<usize>)
    requires
        under_way(recs, root, slots, done),
    ensures
        done.len() <= recs.len(),
{
    assert forall|i: int| 0 <= i < done.len() implies (#[trigger] done[i]) < recs.len() by {
        assert(done.contains(done[i]));
        assert(touched(slots, done, done[i]));
        assert(led_to(recs, root, done, done[i]));
    }
    lemma_places(done, recs.len());
}

impl MftEmission {
    /// The records still to be handed on, the next one last.
    pub closed spec fn stack(&self) -> Seq<PendingView> {
        pending_views(self.stack@)
    }

    /// The records handed on.
    pub closed spec fn done(&self) -> Seq<usize> {
        self.done@
    }

    /// The record where the scan starts.
    pub closed spec fn root(&self) -> usize {
        self.root
    }

    /// Each record is handed on once, after its parent.
    pub closed spec fn wf(&self, recs: Seq<RecordView>) -> bool {
        &&& under_way(recs, self.root, slots_of(pending_views(self.stack@)), self.done@)
        &&& self.kids@.len() == recs.len()
        &&& forall|i: int|
            0 <= i < recs.len() ==> (#[trigger] self.kids@[i])@ == children(recs, i, recs.len())
    }

    /// Once nothing is pending, all that is in the subtree of the root was handed
    /// out, each record once, and nothing else.
    pub proof fn law_all_handed_out(&self, recs: Seq<RecordView>)
        requires
            self.wf(recs),
            self.stack().len() == 0,
        ensures
            self.done().no_duplicates(),
            forall|i: usize| #[trigger]
                self.done().contains(i) <==> in_subtree(recs, self.root() as int, i as int),
    {
        assert(slots_of(self.stack()) =~= Seq::<usize>::empty());
        lemma_whole_subtree(recs, self.root(), self.done());
    }

    /// Never more records are handed out than there are.
    pub proof fn law_ends(&self, recs: Seq<RecordView>)
        requires
            self.wf(recs),
        ensures
            self.done().len() <= recs.len(),
    {
        lemma_finite(recs, self.root(), slots_of(self.stack()), self.done());
    }

    /// The next record was not handed on before.
    pub proof fn lemma_next(&self, recs: Seq<RecordView>)
        requires
            self.wf(recs),
            self.stack().len() > 0,
        ensures
            self.stack().last().slot < recs.len(),
            self.done().len() < recs.len(),
            self.done().push(self.stack().last().slot).no_duplicates(),
            forall|i: int|
                0 <= i < self.done().len() ==> (#[trigger] self.done()[i]) < recs.len(),
    {
        let slots = slots_of(self.stack());
        let top = self.stack().last().slot;
        assert(slots.last() == top);
        assert(slots.contains(top));
        assert(touched(slots, self.done(), top));
        assert forall|i: int| 0 <= i < self.done().len() implies (#[trigger] self.done()[i])
            < recs.len() by {
            assert(self.done().contains(self.done()[i]));
            assert(touched(slots, self.done(), self.done()[i]));
        }
        let next = self.done().push(top);
        assert forall|i: int| 0 <= i < next.len() implies (#[trigger] next[i]) < recs.len() by {
            if i < self.done().len() {
                assert(next[i] == self.done()[i]);
            }
        }
        lemma_places(next, recs.len());
    }

    /// Whether all was handed on.
    pub fn is_done(&self) -> (r: bool)
        ensures
            r == (self.stack().len() == 0),
    {
        self.stack.len() == 0
    }

    /// Starts with the root of a scan.
    pub fn new(table: &MftTable, root: usize, root_text: &str) -> (e: Self)
        requires
            table.wf(),
            root < table@.records.len(),
        ensures
            e.wf(table@.records),
            e.root() == root,
            e.done().len() == 0,
            e.stack() == seq![PendingView { slot: root, path: root_text@, parent: None }],
    {
        let ghost recs = table@.records;
        let n: usize = table.records().len();
        let mut kids: Vec<Vec<usize>> = Vec::new();
        for i in 0..n
            invariant
                kids@.len() == i,
                forall|j: int| 0 <= j < i ==> (#[trigger] kids@[j])@.len() == 0,
        {
            kids.push(Vec::new());
        }
        proof {
            assert forall|i: int| 0 <= i < n implies (#[trigger] kids@[i])@ == children(
                recs,
                i,
                0,
            ) by {
                assert(kids@[i]@ =~= Seq::<usize>::empty());
            }
        }
        for j in 0..n
            invariant
                n == recs.len(),
                recs == table@.records,
                table.wf(),
                mft_table::distinct(recs),
                kids@.len() == n,
                forall|i: int|
                    0 <= i < n ==> (#[trigger] kids@[i])@ == children(recs, i, j as nat),
        {
            let rec = &table.records()[j];
            proof {
                assert(rec@ == recs[j as int]);
            }
            match table.find(rec.parent_frn) {
                Some(i) => {
                    let ghost before = kids@;
                    kids[i].push(j);
                    proof {
                        assert forall|k: int| 0 <= k < n implies (#[trigger] kids@[k])@ == children(
                            recs,
                            k,
                            (j + 1) as nat,
                        ) by {
                            assert(before[k]@ == children(recs, k, j as nat));
                            if recs[k].frn == recs[j as int].parent_frn {
                                assert(recs[k].frn == recs[i as int].frn);
                            }
                        }
                    }
                },
                None => {
                    proof {
                        assert forall|k: int| 0 <= k < n implies (#[trigger] kids@[k])@ == children(
                            recs,
                            k,
                            (j + 1) as nat,
                        ) by {
                            assert(kids@[k]@ == children(recs, k, j as nat));
                            assert(mft_table::is_at(recs, k, recs[k].frn));
                        }
                    }
                },
            }
        }
        let mut stack: Vec<Pending> = Vec::new();
        stack.push(Pending { slot: root, path: root_text.to_owned(), parent: None });
        proof {
            let slots = slots_of(pending_views(stack@));
            assert(slots =~= seq![root]);
            assert(slots[0] == root);
            assert(reaches(recs, root as int, root as int, 0));
            assert(pending_views(stack@) =~= seq![
                PendingView { slot: root, path: root_text@, parent: None },
            ]);
        }
        MftEmission { root, kids, stack, done: Ghost(Seq::empty()) }
    }

    /// Hands on the next record.
    pub fn step(
        &mut self,
        table: &MftTable,
        openings: &Openings,
        scanner: &mut MftScanner,
        summary: &mut ScanSummary,
        cancelled: bool,
    ) -> (r: EmitStep)
        requires
            table.wf(),
            old(self).wf(table@.records),
            openings@.len() == table@.records.len(),
            old(self).stack().len() > 0 ==> scan::can_count(
                old(summary)@,
                next_data(old(scanner)@, table@.records, openings@, old(self).stack().last()),
            ),
        ensures
            final(self).wf(table@.records),
            final(self).root() == old(self).root(),
            if old(self).stack().len() == 0 {
                &&& r is Done
                &&& final(self).stack() == old(self).stack()
                &&& final(self).done() == old(self).done()
                &&& final(scanner)@ == old(scanner)@
                &&& final(summary)@ == old(summary)@
            } else if cancelled {
                &&& r is Cancelled
                &&& final(self).stack() == old(self).stack()
                &&& final(self).done() == old(self).done()
                &&& final(scanner)@ == old(scanner)@
                &&& final(summary)@ == (SummaryView { cancelled: true, ..old(summary)@ })
            } else {
                let recs = table@.records;
                let top = old(self).stack().last();
                let d = next_data(old(scanner)@, recs, openings@, top);
                &&& r matches EmitStep::Emit(u, told) && u@ == (UpsertView {
                    parent_path: top.parent,
                    path: top.path,
                    params: d,
                }) && scan::problem_option(told) == opening_problem(
                    openings@[top.slot as int],
                    top.path,
                )
                &&& final(self).stack() == old(self).stack().drop_last() + follow_ups(
                    recs,
                    old(self).root(),
                    top,
                )
                &&& final(self).done() == old(self).done().push(top.slot)
                &&& final(scanner)@ == seen_with(
                    old(scanner)@,
                    recs[top.slot as int].frn as u128,
                    recs[top.slot as int],
                    meta_in(openings@[top.slot as int]),
                )
                &&& final(summary)@ == scan::counted(
                    opening_noted(old(summary)@, openings@[top.slot as int], top.path),
                    d,
                )
            },
    {
        let ghost recs = table@.records;
        let ghost old_stack = self.stack();
        let ghost old_done = self.done@;
        if self.stack.len() == 0 {
            return EmitStep::Done;
        }
        if cancelled {
            summary.cancelled = true;
            return EmitStep::Cancelled;
        }
        let top = match self.stack.pop() {
            Some(top) => top,
            None => {
                return EmitStep::Done;
            },
        };
        proof {
            assert(old_stack.last() == top@);
            assert(pending_views(self.stack@) =~= old_stack.drop_last());
            let slots = slots_of(old_stack);
            assert(slots.last() == top.slot);
            assert(slots.contains(top.slot));
            assert(touched(slots, old_done, top.slot));
            assert(led_to(recs, self.root, old_done, top.slot));
        }
        let record = &table.records()[top.slot];
        proof {
            assert(record@ == recs[top.slot as int]);
        }
        let meta: Option<FileMeta> = match &openings.list[top.slot] {
            Opening::Opened(m) => Some(*m),
            _ => None,
        };
        let is_root = top.parent.is_none();
        let params = scanner.node_params(
            record.frn,
            record,
            meta,
            if is_root {
                top.path.as_str()
            } else {
                record.name.as_str()
            },
        );
        let mut told: Option<ScanProblem> = None;
        if let Opening::Failed(message) = &openings.list[top.slot] {
            let mut text = "OpenFileById failed: ".to_owned();
            text.append(message.as_str());
            told = Some(summary.add_problem(Some(top.path.clone()), text));
        }
        summary.count(&params);
        if params.kind == NodeKind::Directory {
            self.push_children(table, &top);
        } else {
            proof {
                assert(pending_views(self.stack@) =~= pending_views(self.stack@)
                    + Seq::<PendingView>::empty());
            }
        }
        proof {
            self.done@ = old_done.push(top.slot);
            lemma_emit(recs, self.root, old_stack, old_done, pending_views(self.stack@));
        }
        EmitStep::Emit(Upsert { parent_path: top.parent, path: top.path, params }, told)
    }

    /// Adds the children of a directory to the records still to be handed on.
    fn push_children(&mut self, table: &MftTable, top: &Pending)
        requires
            table.wf(),
            top.slot < table@.records.len(),
            old(self).kids@.len() == table@.records.len(),
            forall|i: int|
                0 <= i < table@.records.len() ==> (#[trigger] old(self).kids@[i])@ == children(
                    table@.records,
                    i,
                    table@.records.len(),
                ),
        ensures
            pending_views(final(self).stack@) == pending_views(old(self).stack@) + offspring(
                table@.records,
                old(self).root,
                top.path@,
                children(table@.records, top.slot as int, table@.records.len()),
            ),
            final(self).kids@ == old(self).kids@,
            final(self).root == old(self).root,
            final(self).done == old(self).done,
    {
        let ghost recs = table@.records;
        let ghost base = pending_views(self.stack@);
        let ghost root = self.root;
        let ghost kids = self.kids@[top.slot as int]@;
        let ghost all = self.kids@;
        let n: usize = self.kids[top.slot].len();
        let total: usize = table.records().len();
        proof {
            assert(total == recs.len());
            lemma_children(recs, top.slot as int, recs.len());
            assert forall|j: int| 0 <= j < kids.len() implies (#[trigger] kids[j])
                < recs.len() by {
                assert(children(recs, top.slot as int, recs.len()).contains(kids[j]));
            }
            assert(kids.take(0) =~= Seq::empty());
            assert(base + Seq::<PendingView>::empty() =~= base);
        }
        for k in 0..n
            invariant
                n == kids.len(),
                recs == table@.records,
                table.wf(),
                self.kids@ == all,
                self.root == root,
                self.done == old(self).done,
                top.slot < recs.len(),
                all.len() == recs.len(),
                kids == all[top.slot as int]@,
                forall|j: int| 0 <= j < kids.len() ==> (#[trigger] kids[j]) < recs.len(),
                pending_views(self.stack@) == base + offspring(
                    recs,
                    root,
                    top.path@,
                    kids.take(k as int),
                ),
        {
            let child: usize = self.kids[top.slot][k];
            proof {
                assert(kids.take(k + 1).drop_last() =~= kids.take(k as int));
                assert(kids.take(k + 1).last() == child);
                assert(kids[k as int] == child);
            }
            if child != self.root {
                let rec = &table.records()[child];
                proof {
                    assert(rec@ == recs[child as int]);
                }
                let ghost before = self.stack@;
                let p = Pending {
                    slot: child,
                    path: windows_join(top.path.as_str(), rec.name.as_str()),
                    parent: Some(top.path.clone()),
                };
                self.stack.push(p);
                proof {
                    assert(pending_views(self.stack@) =~= pending_views(before).push(p@));
                    let old_off = offspring(recs, root, top.path@, kids.take(k as int));
                    assert((base + old_off).push(p@) =~= base + old_off.push(p@));
                }
            }
        }
        proof {
            assert(kids.take(n as int) =~= kids);
        }
    }
}

/// The node of the next record to be handed on.
pub open spec fn next_data(
    seen: Set<u128>,
    recs: Seq<RecordView>,
    openings: Seq<Opening>,
    top: PendingView,
) -> NodeData {
    let r = recs[top.slot as int];
    record_data(
        seen,
        r.frn as u128,
        r,
        meta_in(openings[top.slot as int]),
        if top.parent is None {
            top.path
        } else {
            r.name
        },
    )
}

/// The problem of a file that could not be opened.
pub open spec fn opening_problem(o: Opening, path: Seq<char>) -> Option<ProblemView> {
    match o {
        Opening::Failed(m) => Some(
            ProblemView { path: Some(path), message: "OpenFileById failed: "@ + m@ },
        ),
        _ => None,
    }
}

/// A summary with the problem of a file that could not be opened.
pub open spec fn opening_noted(s: SummaryView, o: Opening, path: Seq<char>) -> SummaryView {
    match opening_problem(o, path) {
        Some(p) => scan::with_problem(s, p.path, p.message),
        None => s,
    }
}

/// The path inside the volume that a scan starts at.
pub open spec fn suffix_in(root: Seq<char>) -> Seq<char> {
    match ntfs::suffix_of(root) {
        Some(s) => s,
        None => Seq::empty(),
    }
}

/// The path inside the volume that a scan starts at.
pub fn scan_suffix(root: &str) -> (s: String)
    ensures
        s@ == suffix_in(root@),
{
    match ntfs::drive_suffix(root) {
        Some(s) => s,
        None => {
            let s = String::new();
            proof {
                assert(s@ =~= Seq::<char>::empty());
            }
            s
        },
    }
}

/// The record that a scan starts at: the first that fits. It fails where there
/// is none.
pub fn scan_root(table: &MftTable, cache: &mut PathCache, root: &str) -> (r: Result<
    usize,
    ScanError,
>)
    requires
        table.wf(),
        old(cache).wf(table@.records),
    ensures
        final(cache).wf(table@.records),
        match r {
            Ok(n) => {
                &&& n < table@.records.len()
                &&& mft_table::starts_scan(
                    table@.records,
                    suffix_in(root@),
                    table@.records[n as int],
                )
                &&& forall|i: int|
                    0 <= i < n ==> !mft_table::starts_scan(
                        table@.records,
                        suffix_in(root@),
                        #[trigger] table@.records[i],
                    )
            },
            Err(e) => e@ == ScanErrorView::RootNotFound(root@) && forall|i: int|
                0 <= i < table@.records.len() ==> !mft_table::starts_scan(
                    table@.records,
                    suffix_in(root@),
                    #[trigger] table@.records[i],
                ),
        },
{
    let suffix = scan_suffix(root);
    match mft_table::find_scan_root(table, cache, suffix.as_str()) {
        Some(n) => Ok(n),
        None => Err(ScanError::RootNotFound(root.to_owned())),
    }
}

/// The path of the directory that holds a further hard link, given its path
/// inside the volume; none if it is outside the subtree of the scan. Letters
/// count as the same in either case.
pub open spec fn alias_parent(root: Seq<char>, parent: Seq<char>) -> Option<Seq<char>> {
    let suffix = suffix_in(root);
    let lower = text::lower(suffix);
    let parent_lower = text::lower(parent);
    if lower.len() == 0 {
        Some(windows_joined(root, parent))
    } else if parent_lower == lower {
        Some(root)
    } else if text::begins(parent_lower, lower.push('\\')) {
        match text::after_bytes(parent, text::byte_len(suffix) + 1) {
            Some(rest) => Some(windows_joined(root, rest)),
            None => None,
        }
    } else {
        None
    }
}

/// The node of a further hard link: it has no size, and a mark.
pub open spec fn alias_data(r: RecordView) -> NodeData {
    NodeData {
        flags: NodeFlags(ntfs::flags_of(r.file_attributes) | NodeFlags::HARDLINK_ALIAS),
        ..record_data(Set::empty(), 0, r, None, r.name)
    }
}

/// The summary with one more hard link.
pub open spec fn alias_counted(s: SummaryView, d: NodeData) -> SummaryView {
    SummaryView {
        entries: (s.entries + 1) as u64,
        files: if d.kind == NodeKind::File {
            (s.files + 1) as u64
        } else {
            s.files
        },
        ..s
    }
}

/// The path of the directory that holds a further hard link.
fn find_alias_parent(root: &str, parent: &str) -> (r: Option<String>)
    ensures
        scan::text_option(r) == alias_parent(root@, parent@),
{
    let suffix = scan_suffix(root);
    let suffix_chars = text::measured_chars(suffix.as_str());
    let lower = text::lowered(&suffix_chars);
    if lower.len() == 0 {
        return Some(windows_join(root, parent));
    }
    let parent_chars = text::chars_of(parent);
    let parent_lower = text::lowered(&parent_chars);
    if text::same(&parent_lower, &lower) {
        return Some(root.to_owned());
    }
    let mut start = lower;
    start.push('\\');
    if !text::starts(&parent_lower, &start) {
        return None;
    }
    let n: usize = text::width_of(&suffix_chars, 0, suffix_chars.len());
    proof {
        assert(suffix_chars@.subrange(0, suffix_chars@.len() as int) =~= suffix@);
    }
    if n == usize::MAX {
        proof {
            lemma_short(parent@, (n + 1) as nat);
        }
        let whole: usize = parent.as_bytes().len();
        proof {
            text::lemma_byte_len(parent@);
            assert(whole == parent.spec_bytes().len());
        }
        return None;
    }
    match text::skip_bytes(&parent_chars, n + 1) {
        Some(rest) => Some(windows_join(root, text::text_of(&rest).as_str())),
        None => None,
    }
}

/// A text has no more bytes than it has.
proof fn lemma_short(s: Seq<char>, n: nat)
    ensures
        text::byte_len(s) < n ==> text::after_bytes(s, n) is None,
    decreases s.len(),
{
    if s.len() > 0 && n > 0 && text::width(s[0]) <= n {
        lemma_short(s.drop_first(), (n - text::width(s[0])) as nat);
    }
}

/// What is to be done with a record whose file reference number came before.
pub enum AliasStep {
    /// Nothing: it is outside the subtree of the scan, or nowhere.
    Skip,
    /// The scan is cancelled.
    Cancelled,
    /// The node is to be handed on.
    Emit(Upsert),
}

/// Hands on a record whose file reference number came before.
pub fn alias_step(
    table: &MftTable,
    cache: &mut PathCache,
    summary: &mut ScanSummary,
    scanner: &mut MftScanner,
    i: usize,
    root: &str,
    cancelled: bool,
) -> (r: AliasStep)
    requires
        table.wf(),
        old(cache).wf(table@.records),
        i < table@.duplicates.len(),
        old(summary).entries < u64::MAX,
        old(summary).files <= old(summary).entries,
    ensures
        final(cache).wf(table@.records),
        final(scanner)@ == old(scanner)@,
        if cancelled {
            r is Cancelled && final(summary)@ == (SummaryView { cancelled: true, ..old(summary)@ })
        } else {
            let dup = table@.duplicates[i as int];
            match mft_table::path_in(table@.records, dup.parent_frn) {
                None => r is Skip && final(summary)@ == old(summary)@,
                Some(p) => match alias_parent(root@, p) {
                    None => r is Skip && final(summary)@ == old(summary)@,
                    Some(holder) => {
                        &&& final(summary)@ == alias_counted(old(summary)@, alias_data(dup))
                        &&& r matches AliasStep::Emit(u) && u@ == (UpsertView {
                            parent_path: Some(holder),
                            path: windows_joined(holder, dup.name),
                            params: alias_data(dup),
                        })
                    },
                },
            }
        },
{
    if cancelled {
        summary.cancelled = true;
        return AliasStep::Cancelled;
    }
    let dup = &table.duplicates()[i];
    proof {
        assert(dup@ == table@.duplicates[i as int]);
    }
    let parent = match mft_table::path_of(table, cache, dup.parent_frn) {
        Some(p) => p,
        None => {
            return AliasStep::Skip;
        },
    };
    let holder = match find_alias_parent(root, parent.as_str()) {
        Some(h) => h,
        None => {
            return AliasStep::Skip;
        },
    };
    let mut params = scanner.node_params(0, dup, None, dup.name.as_str());
    params.flags.insert(NodeFlags(NodeFlags::HARDLINK_ALIAS));
    summary.entries = summary.entries + 1;
    if params.kind == NodeKind::File {
        summary.files = summary.files + 1;
    }
    let path = windows_join(holder.as_str(), dup.name.as_str());
    AliasStep::Emit(Upsert { parent_path: Some(holder), path, params })
}

/// The node of a record has the sizes, if it holds no children and was not counted
/// before, and the times that were found when it was opened; of one that was not
/// opened nothing is known but the time of its record.
pub proof fn law_records_keep_their_values(
    seen: Set<u128>,
    frn: u128,
    r: RecordView,
    m: FileMeta,
    name: Seq<char>,
)
    ensures
        ({
            let folder = r.file_attributes & 0x10 != 0 && r.file_attributes & 0x400 == 0;
            let again = !folder && m.links > 1 && seen.contains(frn);
            let d = record_data(seen, frn, r, Some(m), name);
            &&& d.name == name
            &&& d.kind == NodeKind::Directory <==> folder
            &&& d.kind == NodeKind::File <==> !folder
            &&& d.created == m.created
            &&& d.accessed == m.accessed
            &&& d.modified == m.modified
            &&& !folder && !again ==> d.logical_size == m.logical && d.allocated_size == m.allocated
            &&& folder || again ==> d.logical_size == 0 && d.allocated_size == 0
            &&& d.tag is None
        }),
        ({
            let d = record_data(seen, frn, r, None, name);
            &&& d.name == name
            &&& d.logical_size == 0
            &&& d.allocated_size == 0
            &&& d.created == r.timestamp
            &&& d.accessed == r.timestamp
            &&& d.modified == r.timestamp
        }),
{
}

/// A further hard link that a scan comes across is marked, and the first is not.
pub proof fn law_record_links(
    seen: Set<u128>,
    frn: u128,
    r: RecordView,
    m: FileMeta,
    a: Seq<char>,
    b: Seq<char>,
)
    requires
        r.file_attributes & 0x10 == 0,
        m.links > 1,
        !seen.contains(frn),
    ensures
        ({
            let first = record_data(seen, frn, r, Some(m), a);
            let after = seen_with(seen, frn, r, Some(m));
            let second = record_data(after, frn, r, Some(m), b);
            &&& first.logical_size == m.logical
            &&& first.allocated_size == m.allocated
            &&& second.logical_size == 0
            &&& second.allocated_size == 0
            &&& second.flags.0 & NodeFlags::HARDLINK_ALIAS == NodeFlags::HARDLINK_ALIAS
        }),
{
    let f = ntfs::flags_of(r.file_attributes);
    assert((f | 0x8_0000u32) & 0x8_0000u32 == 0x8_0000u32) by (bit_vector);
}

/// An allocated size is believed where it is positive; otherwise the file takes its
/// logical size.
pub proof fn law_allocations(logical: u64, allocation: i64)
    ensures
        allocation > 0 ==> believed_allocation(logical, allocation) == allocation,
        allocation <= 0 ==> believed_allocation(logical, allocation) == logical,
{
}

/// The high half of a number counts for two to the power of 32.
pub proof fn law_halves(n: u64)
    ensures
        two_halves((n / 0x1_0000_0000) as u32, (n % 0x1_0000_0000) as u32) == n,
{
}

/// A name is put behind a path with one backslash between them.
pub proof fn law_windows_paths(path: Seq<char>, part: Seq<char>)
    requires
        path.len() > 2,
    ensures
        path.last() != '\\' && path.last() != '/' ==> windows_joined(path, part) == path + seq!['\\']
            + part,
        path.last() == '\\' || path.last() == '/' ==> windows_joined(path, part) == path + part,
{
    assert(path.push('\\') + part =~= path + seq!['\\'] + part);
}

/// The children of a record are those that name it as their parent.
pub proof fn law_record_children(recs: Seq<RecordView>, i: int, j: usize)
    requires
        0 <= i < recs.len() <= usize::MAX,
        j < recs.len(),
    ensures
        children(recs, i, recs.len()).contains(j) <==> recs[j as int].parent_frn == recs[i].frn,
{
    lemma_children(recs, i, recs.len());
}

/// A further hard link is a node without size and with a mark, named as its record
/// says; it counts as an entry and, unless it is a folder, as a file.
pub proof fn law_aliases(r: RecordView, s: SummaryView)
    requires
        s.entries < u64::MAX,
        s.files <= s.entries,
    ensures
        ({
            let d = alias_data(r);
            let t = alias_counted(s, d);
            &&& d.name == r.name
            &&& d.logical_size == 0
            &&& d.allocated_size == 0
            &&& d.modified == r.timestamp
            &&& d.flags.0 & NodeFlags::HARDLINK_ALIAS == NodeFlags::HARDLINK_ALIAS
            &&& t.entries == s.entries + 1
            &&& d.kind == NodeKind::File ==> t.files == s.files + 1
            &&& d.kind != NodeKind::File ==> t.files == s.files
            &&& t.dirs == s.dirs
            &&& t.logical_size == s.logical_size
            &&& t.allocated_size == s.allocated_size
        }),
{
    let f = ntfs::flags_of(r.file_attributes);
    assert((f | 0x8_0000u32) & 0x8_0000u32 == 0x8_0000u32) by (bit_vector);
}

proof fn lemma_after_bytes(a: Seq<char>, b: Seq<char>)
    ensures
        text::after_bytes(a + b, text::byte_len(a)) == Some(b),
    decreases a.len(),
{
    if a.len() == 0 {
        assert(a + b =~= b);
    } else {
        assert((a + b).drop_first() =~= a.drop_first() + b);
        lemma_after_bytes(a.drop_first(), b);
    }
}

proof fn lemma_ascii_width(c: char)
    requires
        c < '\u{80}',
    ensures
        text::width(c) == 1,
{
}

proof fn lemma_ascii_bytes(s: Seq<char>)
    requires
        text::all_ascii(s),
    ensures
        text::byte_len(s) == s.len(),
    decreases s.len(),
{
    if s.len() > 0 {
        assert forall|i: int| 0 <= i < s.drop_first().len() implies (
        #[trigger] s.drop_first()[i]) < '\u{80}' by {
            assert(s.drop_first()[i] == s[i + 1]);
        }
        lemma_ascii_bytes(s.drop_first());
        assert(s[0] < '\u{80}');
        lemma_ascii_width(s[0]);
    }
}

/// The folder of a further hard link is found below the folder that is scanned, in
/// whatever case its path is written; what only starts with the same letters is not
/// in it.
pub proof fn law_alias_folders(root: Seq<char>, up: Seq<char>, c: char, rest: Seq<char>)
    requires
        ntfs::suffix_of(root) is Some,
        (ntfs::suffix_of(root)->0).len() > 0,
        text::all_ascii(ntfs::suffix_of(root)->0),
        text::all_ascii(up + seq![c] + rest),
        text::ascii_lower_text(up) == text::ascii_lower_text(ntfs::suffix_of(root)->0),
    ensures
        alias_parent(root, up) == Some(root),
        c == '\\' ==> alias_parent(root, up + seq![c] + rest) == Some(windows_joined(root, rest)),
        c != '\\' ==> alias_parent(root, up + seq![c] + rest) is None,
{
    let suffix = ntfs::suffix_of(root)->0;
    let path = up + seq![c] + rest;
    assert forall|i: int| 0 <= i < up.len() implies (#[trigger] up[i]) < '\u{80}' by {
        assert(path[i] == up[i]);
    }
    let lower = text::ascii_lower_text(suffix);
    let low = text::ascii_lower_text(path);
    assert(up.len() == suffix.len()) by {
        assert(text::ascii_lower_text(up).len() == up.len());
        assert(lower.len() == suffix.len());
    }
    assert(low.take(up.len() as int) =~= lower) by {
        assert forall|i: int| 0 <= i < up.len() implies low[i] == lower[i] by {
            assert(path[i] == up[i]);
            assert(text::ascii_lower_text(up)[i] == text::ascii_lower(up[i]));
        }
    }
    assert(low[up.len() as int] == text::ascii_lower(c));
    text::law_ascii_lower(c);
    assert(low.len() > lower.len());
    if c == '\\' {
        assert(low.take(lower.len() as int + 1) =~= lower.push('\\'));
        lemma_ascii_bytes(suffix);
        lemma_ascii_bytes(up);
        assert(text::byte_len(up + seq![c]) == suffix.len() + 1) by {
            text::lemma_byte_len_concat(up, seq![c]);
            assert(text::all_ascii(seq![c]));
            lemma_ascii_bytes(seq![c]);
        }
        lemma_after_bytes(up + seq![c], rest);
        assert(up + seq![c] + rest =~= path);
    } else {
        assert(text::ascii_lower(c) != '\\');
        if text::begins(low, lower.push('\\')) {
            assert(low.take(lower.len() as int + 1)[lower.len() as int] == low[lower.len() as int]);
            assert(false);
        }
    }
}

/// A scan of a whole volume has every folder of it below its root.
pub proof fn law_alias_folders_of_volume(root: Seq<char>, parent: Seq<char>)
    requires
        ntfs::suffix_of(root) is None || (ntfs::suffix_of(root)->0).len() == 0,
    ensures
        alias_parent(root, parent) == Some(windows_joined(root, parent)),
{
}

/// What came of opening the file of a record is noted for that record alone.
pub proof fn law_openings(o: &mut Openings, i: usize, outcome: Result<FileMeta, String>, k: int)
    requires
        i < old(o)@.len(),
        0 <= k < old(o)@.len(),
        call_ensures(Openings::note, (o, i, outcome), ()),
    ensures
        final(o)@.len() == old(o)@.len(),
        k != i ==> final(o)@[k] == old(o)@[k],
        outcome matches Ok(m) ==> final(o)@[i as int] == Opening::Opened(m),
        outcome matches Err(e) ==> final(o)@[i as int] == Opening::Failed(e),
{
}

} // verus!
