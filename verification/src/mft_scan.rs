//! A whole scan by a master file table: from the records and what came of opening
//! the files to the nodes that are handed on.
use vstd::prelude::*;

use crate::builder::BuilderView;
use crate::mft;
use crate::mft::{AliasStep, EmitStep, MftEmission, MftScanner, Opening, Openings, PendingView};
use crate::mft_table;
use crate::mft_table::{MftTable, PathCache, RecordView, TableView};
use crate::node::{Measure, NodeKind};
use crate::scan;
use crate::scan::{
    EventView, ProblemView, ScanError, ScanErrorView, ScanEvent, ScanSummary, SummaryView, UpsertView,
};
use crate::scan_tree;

verus! {

/// How a scan stands after some of its records were handed on.
#[verifier::ext_equal]
pub struct Progress {
    /// The records still to be handed on, the next one last.
    pub stack: Seq<PendingView>,
    /// The places of the records handed on.
    pub done: Seq<usize>,
    /// The files with several hard links that were handed on.
    pub seen: Set<u128>,
    pub summary: SummaryView,
    /// The nodes handed on.
    pub found: Seq<UpsertView>,
    /// All that was handed on, problems too.
    pub told: Seq<EventView>,
}

/// What is handed on of a node: the problem that it has, if it has one, and the
/// node.
pub open spec fn events_of(u: UpsertView, problem: Option<ProblemView>) -> Seq<EventView> {
    match problem {
        Some(p) => seq![EventView::Problem(p), EventView::Node(u)],
        None => seq![EventView::Node(u)],
    }
}

/// A scan that starts at a record.
pub open spec fn begun(root: usize, path: Seq<char>, seen: Set<u128>, s: SummaryView) -> Progress {
    Progress {
        stack: seq![PendingView { slot: root, path, parent: None }],
        done: Seq::empty(),
        seen,
        summary: s,
        found: Seq::empty(),
        told: Seq::empty(),
    }
}

/// A scan after one more record, if one is left.
pub open spec fn after_record(
    recs: Seq<RecordView>,
    openings: Seq<Opening>,
    root: usize,
    p: Progress,
) -> Progress {
    if p.stack.len() == 0 {
        p
    } else {
        let top = p.stack.last();
        let r = recs[top.slot as int];
        let o = openings[top.slot as int];
        let d = mft::next_data(p.seen, recs, openings, top);
        let u = UpsertView { parent_path: top.parent, path: top.path, params: d };
        Progress {
            stack: p.stack.drop_last() + mft::follow_ups(recs, root, top),
            done: p.done.push(top.slot),
            seen: mft::seen_with(p.seen, r.frn as u128, r, mft::meta_in(o)),
            summary: scan::counted(mft::opening_noted(p.summary, o, top.path), d),
            found: p.found.push(u),
            told: p.told + events_of(u, mft::opening_problem(o, top.path)),
        }
    }
}

/// A scan after `n` records.
pub open spec fn after_records(
    recs: Seq<RecordView>,
    openings: Seq<Opening>,
    root: usize,
    p: Progress,
    n: nat,
) -> Progress
    decreases n,
{
    if n == 0 {
        p
    } else {
        after_record(
            recs,
            openings,
            root,
            after_records(recs, openings, root, p, (n - 1) as nat),
        )
    }
}

/// The bytes of an opened file.
pub open spec fn opened_amount(o: Opening, m: Measure) -> int {
    match o {
        Opening::Opened(f) => match m {
            Measure::Logical => f.logical as int,
            Measure::Allocated => f.allocated as int,
            _ => 0,
        },
        _ => 0,
    }
}

/// The bytes of all opened files.
pub open spec fn opened_total(openings: Seq<Opening>, m: Measure) -> int
    decreases openings.len(),
{
    if openings.len() == 0 {
        0
    } else {
        opened_total(openings.drop_last(), m) + opened_amount(openings.last(), m)
    }
}

/// Whether what is in a table can be counted on top of a summary.
pub open spec fn countable(s: SummaryView, table: MftTable, openings: Seq<Opening>) -> bool {
    &&& s.entries + table@.records.len() + table@.duplicates.len() <= u64::MAX
    &&& s.files <= s.entries
    &&& s.dirs <= s.entries
    &&& s.logical_size + opened_total(openings, Measure::Logical) <= u64::MAX
    &&& s.allocated_size + opened_total(openings, Measure::Allocated) <= u64::MAX
}

/// The bytes of the files at some places.
spec fn amount_at(openings: Seq<Opening>, places: Seq<usize>, m: Measure) -> int
    decreases places.len(),
{
    if places.len() == 0 {
        0
    } else {
        amount_at(openings, places.drop_last(), m) + opened_amount(
            openings[places.last() as int],
            m,
        )
    }
}

proof fn lemma_amount_without(openings: Seq<Opening>, places: Seq<usize>, k: int, m: Measure)
    requires
        0 <= k < places.len(),
    ensures
        amount_at(openings, places, m) == amount_at(openings, places.remove(k), m) + opened_amount(
            openings[places[k] as int],
            m,
        ),
    decreases places.len(),
{
    let last = places.len() - 1;
    if k == last {
        assert(places.remove(k) =~= places.drop_last());
    } else {
        lemma_amount_without(openings, places.drop_last(), k, m);
        assert(places.remove(k).drop_last() =~= places.drop_last().remove(k));
        assert(places.remove(k).last() == places.last());
    }
}

/// The files at different places have no more bytes than all.
proof fn lemma_amount_bounded(openings: Seq<Opening>, places: Seq<usize>, n: nat, m: Measure)
    requires
        n <= openings.len(),
        places.no_duplicates(),
        forall|i: int| 0 <= i < places.len() ==> (#[trigger] places[i]) < n,
    ensures
        amount_at(openings, places, m) <= opened_total(openings.take(n as int), m),
    decreases n,
{
    if n == 0 {
        assert(places.len() == 0) by {
            if places.len() > 0 {
                assert(places[0] < n);
            }
        }
    } else {
        let less = (n - 1) as nat;
        assert(openings.take(n as int).drop_last() =~= openings.take(less as int));
        if exists|k: int| 0 <= k < places.len() && #[trigger] places[k] == less {
            let k = choose|k: int| 0 <= k < places.len() && #[trigger] places[k] == less;
            let rest = places.remove(k);
            lemma_amount_without(openings, places, k, m);
            assert forall|i: int| 0 <= i < rest.len() implies (#[trigger] rest[i]) < less by {
                let j = if i < k {
                    i
                } else {
                    i + 1
                };
                assert(rest[i] == places[j]);
                assert(places[j] != places[k]);
            }
            assert(rest.no_duplicates()) by {
                assert forall|i: int, j: int|
                    0 <= i < rest.len() && 0 <= j < rest.len() && i != j implies rest[i]
                    != rest[j] by {
                    let a = if i < k {
                        i
                    } else {
                        i + 1
                    };
                    let b = if j < k {
                        j
                    } else {
                        j + 1
                    };
                    assert(rest[i] == places[a] && rest[j] == places[b]);
                }
            }
            lemma_amount_bounded(openings, rest, less, m);
        } else {
            assert forall|i: int| 0 <= i < places.len() implies (#[trigger] places[i]) < less by {
                assert(places[i] < n);
            }
            lemma_amount_bounded(openings, places, less, m);
        }
    }
}

/// Whether a scan that stands at `start` is at its end after `k` records, and has
/// told `told`. All records below its root were handed on, each once.
pub open spec fn at_end(
    recs: Seq<RecordView>,
    openings: Seq<Opening>,
    root: usize,
    start: Progress,
    k: nat,
    told: Seq<EventView>,
    seen: Set<u128>,
    s: SummaryView,
) -> bool {
    let end = after_records(recs, openings, root, start, k);
    &&& end.stack.len() == 0
    &&& told == end.told
    &&& seen == end.seen
    &&& s == end.summary
    &&& end.done.no_duplicates()
    &&& forall|i: usize| #[trigger]
        end.done.contains(i) <==> mft::in_subtree(recs, root as int, i as int)
}

/// Hands on the records below the root of a scan, parents before children. All
/// of them are handed on, each once.
pub fn emit_records(
    table: &MftTable,
    openings: &Openings,
    scanner: &mut MftScanner,
    summary: &mut ScanSummary,
    root: usize,
    path: &str,
) -> (told: Vec<ScanEvent>)
    requires
        table.wf(),
        root < table@.records.len(),
        openings@.len() == table@.records.len(),
        countable(old(summary)@, *table, openings@),
    ensures
        exists|k: nat| #[trigger]
            at_end(
                table@.records,
                openings@,
                root,
                begun(root, path@, old(scanner)@, old(summary)@),
                k,
                scan::event_views(told@),
                final(scanner)@,
                final(summary)@,
            ),
        final(summary).files <= final(summary).entries,
        final(summary).entries <= old(summary).entries + table@.records.len(),
{
    let ghost recs = table@.records;
    let ghost start = begun(root, path@, scanner@, summary@);
    let ghost base = summary@;
    let mut e = MftEmission::new(table, root, path);
    let mut told: Vec<ScanEvent> = Vec::new();
    let ghost mut at = start;
    proof {
        assert(scan::event_views(told@) =~= start.told);
        assert(e.done() =~= start.done);
    }
    while !e.is_done()
        invariant
            table.wf(),
            recs == table@.records,
            openings@.len() == recs.len(),
            base == old(summary)@,
            countable(base, *table, openings@),
            start == begun(root, path@, old(scanner)@, base),
            e.wf(recs),
            e.root() == root,
            at == after_records(recs, openings@, root, start, e.done().len()),
            at.stack == e.stack(),
            at.done == e.done(),
            at.seen == scanner@,
            at.summary == summary@,
            at.told == scan::event_views(told@),
            summary.entries == base.entries + e.done().len(),
            summary.files <= summary.entries,
            summary.dirs <= summary.entries,
            summary.logical_size <= base.logical_size + amount_at(
                openings@,
                e.done(),
                Measure::Logical,
            ),
            summary.allocated_size <= base.allocated_size + amount_at(
                openings@,
                e.done(),
                Measure::Allocated,
            ),
        decreases recs.len() - e.done().len(),
    {
        let ghost before = e.done();
        let ghost top = e.stack().last();
        let ghost list = told@;
        proof {
            e.law_ends(recs);
            e.lemma_next(recs);
            let next = before.push(top.slot);
            assert(next.drop_last() =~= before);
            assert forall|i: int| 0 <= i < next.len() implies (#[trigger] next[i])
                < openings@.len() by {
                if i < before.len() {
                    assert(next[i] == before[i]);
                }
            }
            assert(openings@.take(openings@.len() as int) =~= openings@);
            lemma_amount_bounded(openings@, next, openings@.len(), Measure::Logical);
            lemma_amount_bounded(openings@, next, openings@.len(), Measure::Allocated);
        }
        match e.step(table, openings, scanner, summary, false) {
            EmitStep::Emit(u, problem) => {
                let ghost node = u@;
                let ghost p = scan::problem_option(problem);
                if let Some(p) = problem {
                    told.push(ScanEvent::Error(p));
                }
                told.push(ScanEvent::Upsert(u));
                proof {
                    assert(scan::event_views(told@) =~= scan::event_views(list) + events_of(
                        node,
                        p,
                    ));
                    assert((e.done().len() - 1) as nat == before.len());
                    at = after_record(recs, openings@, root, at);
                    e.law_ends(recs);
                }
            },
            _ => {},
        }
    }
    proof {
        e.law_all_handed_out(recs);
        e.law_ends(recs);
        assert(at_end(
            recs,
            openings@,
            root,
            start,
            e.done().len(),
            scan::event_views(told@),
            scanner@,
            summary@,
        ));
    }
    told
}

/// The nodes that the first `n` records become whose file reference numbers came
/// before, and the summary after them. Those outside the scan are passed over.
pub open spec fn aliases(
    recs: Seq<RecordView>,
    duplicates: Seq<RecordView>,
    root: Seq<char>,
    s: SummaryView,
    n: nat,
) -> (Seq<EventView>, SummaryView)
    decreases n,
{
    if n == 0 {
        (Seq::empty(), s)
    } else {
        let (found, s) = aliases(recs, duplicates, root, s, (n - 1) as nat);
        let dup = duplicates[n - 1];
        match mft_table::path_in(recs, dup.parent_frn) {
            None => (found, s),
            Some(p) => match mft::alias_parent(root, p) {
                None => (found, s),
                Some(holder) => (
                    found.push(
                        EventView::Node(
                            UpsertView {
                                parent_path: Some(holder),
                                path: mft::windows_joined(holder, dup.name),
                                params: mft::alias_data(dup),
                            },
                        ),
                    ),
                    mft::alias_counted(s, mft::alias_data(dup)),
                ),
            },
        }
    }
}

/// Hands on the records whose file reference numbers came before.
pub fn emit_aliases(
    table: &MftTable,
    cache: &mut PathCache,
    scanner: &mut MftScanner,
    summary: &mut ScanSummary,
    root: &str,
) -> (told: Vec<ScanEvent>)
    requires
        table.wf(),
        old(cache).wf(table@.records),
        old(summary).files <= old(summary).entries,
        old(summary).entries + table@.duplicates.len() <= u64::MAX,
    ensures
        final(cache).wf(table@.records),
        final(scanner)@ == old(scanner)@,
        (scan::event_views(told@), final(summary)@) == aliases(
            table@.records,
            table@.duplicates,
            root@,
            old(summary)@,
            table@.duplicates.len(),
        ),
{
    let ghost recs = table@.records;
    let ghost dups = table@.duplicates;
    let n: usize = table.duplicates().len();
    let mut told: Vec<ScanEvent> = Vec::new();
    proof {
        assert(scan::event_views(told@) =~= Seq::<EventView>::empty());
    }
    for i in 0..n
        invariant
            table.wf(),
            recs == table@.records,
            dups == table@.duplicates,
            n == dups.len(),
            cache.wf(recs),
            scanner@ == old(scanner)@,
            old(summary).entries + dups.len() <= u64::MAX,
            summary.files <= summary.entries,
            summary.entries <= old(summary).entries + i,
            (scan::event_views(told@), summary@) == aliases(
                recs,
                dups,
                root@,
                old(summary)@,
                i as nat,
            ),
    {
        let ghost list = told@;
        match mft::alias_step(table, cache, summary, scanner, i, root, false) {
            AliasStep::Emit(u) => {
                let ghost node = u@;
                told.push(ScanEvent::Upsert(u));
                proof {
                    assert(scan::event_views(told@) =~= scan::event_views(list).push(
                        EventView::Node(node),
                    ));
                }
            },
            _ => {},
        }
    }
    told
}

/// What a scan by a table hands on, and its summary.
pub open spec fn handed_on(
    recs: Seq<RecordView>,
    duplicates: Seq<RecordView>,
    p: Progress,
    root: Seq<char>,
) -> (Seq<EventView>, SummaryView) {
    let (more, s) = aliases(recs, duplicates, root, p.summary, duplicates.len());
    (p.told + more, s)
}

/// Whether a scan starts at the record at a place: it is the first that fits.
pub open spec fn starts_at(recs: Seq<RecordView>, root: Seq<char>, n: int) -> bool {
    &&& 0 <= n < recs.len()
    &&& mft_table::starts_scan(recs, mft::suffix_in(root), recs[n])
    &&& forall|i: int|
        0 <= i < n ==> !mft_table::starts_scan(recs, mft::suffix_in(root), #[trigger] recs[i])
}

/// Whether a scan that stands at `start`, at the record at place `n`, and hands on
/// `k` records is at its end, having told `told`. Once it is cancelled it
/// hands on nothing.
pub open spec fn ends_after(
    table: TableView,
    openings: Seq<Opening>,
    start: Progress,
    n: usize,
    k: nat,
    cancelled: bool,
    told: Seq<EventView>,
    seen: Set<u128>,
    s: SummaryView,
) -> bool {
    let root = start.stack.last().path;
    &&& starts_at(table.records, root, n as int)
    &&& if cancelled {
        &&& told.len() == 0
        &&& seen == start.seen
        &&& s == (SummaryView { cancelled: true, ..start.summary })
    } else {
        let end = after_records(table.records, openings, n, start, k);
        &&& end.stack.len() == 0
        &&& seen == end.seen
        &&& (told, s) == handed_on(table.records, table.duplicates, end, root)
    }
}

/// Whether a scan of `root` ends having told `told`, with `new_seen` and
/// `new` as the files and the summary after it.
pub open spec fn scanned(
    table: TableView,
    openings: Seq<Opening>,
    root: Seq<char>,
    seen: Set<u128>,
    s: SummaryView,
    cancelled: bool,
    told: Seq<EventView>,
    new_seen: Set<u128>,
    new: SummaryView,
) -> bool {
    exists|n: usize, k: nat| #[trigger]
        ends_after(
            table,
            openings,
            begun(n, root, seen, s),
            n,
            k,
            cancelled,
            told,
            new_seen,
            new,
        )
}

/// Hands on all that a scan of `root` finds in a table: the records below it, and
/// further hard links. It fails if no record is that of `root`.
pub fn scan_records(
    table: &MftTable,
    openings: &Openings,
    scanner: &mut MftScanner,
    summary: &mut ScanSummary,
    root: &str,
    cancelled: bool,
) -> (r: Result<Vec<ScanEvent>, ScanError>)
    requires
        table.wf(),
        openings@.len() == table@.records.len(),
        countable(old(summary)@, *table, openings@),
    ensures
        match r {
            Err(e) => {
                &&& e@ == ScanErrorView::RootNotFound(root@)
                &&& forall|i: int|
                    0 <= i < table@.records.len() ==> !mft_table::starts_scan(
                        table@.records,
                        mft::suffix_in(root@),
                        #[trigger] table@.records[i],
                    )
                &&& final(scanner)@ == old(scanner)@
                &&& final(summary)@ == old(summary)@
            },
            Ok(told) => scanned(
                table@,
                openings@,
                root@,
                old(scanner)@,
                old(summary)@,
                cancelled,
                scan::event_views(told@),
                final(scanner)@,
                final(summary)@,
            ),
        },
{
    let mut cache = PathCache::new(table);
    let start: usize = match mft::scan_root(table, &mut cache, root) {
        Ok(n) => n,
        Err(e) => {
            return Err(e);
        },
    };
    proof {
        assert(starts_at(table@.records, root@, start as int));
    }
    if cancelled {
        summary.cancelled = true;
        let told: Vec<ScanEvent> = Vec::new();
        proof {
            assert(ends_after(
                table@,
                openings@,
                begun(start, root@, old(scanner)@, old(summary)@),
                start,
                0,
                cancelled,
                scan::event_views(told@),
                scanner@,
                summary@,
            ));
        }
        return Ok(told);
    }
    let mut told = emit_records(table, openings, scanner, summary, start, root);
    let ghost below = told@;
    let ghost k = choose|k: nat| #[trigger]
        at_end(
            table@.records,
            openings@,
            start,
            begun(start, root@, old(scanner)@, old(summary)@),
            k,
            scan::event_views(below),
            scanner@,
            summary@,
        );
    let mut more = emit_aliases(table, &mut cache, scanner, summary, root);
    let ghost beside = more@;
    told.append(&mut more);
    proof {
        assert(told@ =~= below + beside);
        assert(scan::event_views(told@) =~= scan::event_views(below) + scan::event_views(beside));
        assert(ends_after(
            table@,
            openings@,
            begun(start, root@, old(scanner)@, old(summary)@),
            start,
            k,
            cancelled,
            scan::event_views(told@),
            scanner@,
            summary@,
        ));
    }
    Ok(told)
}

/// Whether the directory at a path was handed on.
spec fn known(found: Seq<UpsertView>, path: Seq<char>) -> bool {
    exists|j: int| 0 <= j < found.len() && #[trigger] scan_tree::is_dir_at(found, j, path)
}

/// What is pending is the root of the scan, or in a directory that was handed on.
spec fn held(p: Progress) -> bool {
    &&& scan_tree::in_order(p.found)
    &&& forall|k: int|
        0 <= k < p.stack.len() ==> match (#[trigger] p.stack[k]).parent {
            None => p.found.len() == 0 && p.stack.len() == 1,
            Some(q) => known(p.found, q),
        }
}

proof fn lemma_known(found: Seq<UpsertView>, u: UpsertView, path: Seq<char>)
    requires
        known(found, path) || (u.params.kind == NodeKind::Directory && u.path == path),
    ensures
        known(found.push(u), path),
{
    let all = found.push(u);
    if known(found, path) {
        let j = choose|j: int| 0 <= j < found.len() && #[trigger] scan_tree::is_dir_at(
            found,
            j,
            path,
        );
        assert(all[j] == found[j]);
        assert(scan_tree::is_dir_at(all, j, path));
    } else {
        assert(scan_tree::is_dir_at(all, found.len() as int, path));
    }
}

proof fn lemma_offspring(recs: Seq<RecordView>, root: usize, path: Seq<char>, kids: Seq<usize>)
    ensures
        forall|k: int|
            0 <= k < mft::offspring(recs, root, path, kids).len() ==> (
            #[trigger] mft::offspring(recs, root, path, kids)[k]).parent == Some(path),
    decreases kids.len(),
{
    if kids.len() > 0 {
        lemma_offspring(recs, root, path, kids.drop_last());
    }
}

proof fn lemma_held(recs: Seq<RecordView>, openings: Seq<Opening>, root: usize, p: Progress)
    requires
        held(p),
        p.stack.len() > 0,
    ensures
        held(after_record(recs, openings, root, p)),
{
    let top = p.stack.last();
    let n = p.found.len() as int;
    let next = after_record(recs, openings, root, p);
    let all = next.found;
    assert(p.stack[p.stack.len() - 1] == top);
    assert forall|i: int| 0 <= i < all.len() implies match (#[trigger] all[i]).parent_path {
        None => i == 0,
        Some(q) => exists|j: int| 0 <= j < i && #[trigger] scan_tree::is_dir_at(all, j, q),
    } by {
        if i < n {
            assert(all[i] == p.found[i]);
            if let Some(q) = all[i].parent_path {
                let j = choose|j: int|
                    0 <= j < i && #[trigger] scan_tree::is_dir_at(p.found, j, q);
                assert(scan_tree::is_dir_at(all, j, q));
            }
        } else if let Some(q) = all[i].parent_path {
            let j = choose|j: int| 0 <= j < n && #[trigger] scan_tree::is_dir_at(p.found, j, q);
            assert(scan_tree::is_dir_at(all, j, q));
        }
    }
    let kids = mft::children(recs, top.slot as int, recs.len());
    lemma_offspring(recs, root, top.path, kids);
    let rest = p.stack.drop_last();
    assert forall|k: int| 0 <= k < next.stack.len() implies match (#[trigger] next.stack[k]).parent {
        None => all.len() == 0 && next.stack.len() == 1,
        Some(q) => known(all, q),
    } by {
        if k < rest.len() {
            assert(next.stack[k] == p.stack[k]);
            if let Some(q) = p.stack[k].parent {
                lemma_known(p.found, all[n], q);
            }
        } else {
            let f = mft::follow_ups(recs, root, top);
            assert(next.stack[k] == f[k - rest.len()]);
            lemma_known(p.found, all[n], top.path);
        }
    }
}

proof fn lemma_all_held(
    recs: Seq<RecordView>,
    openings: Seq<Opening>,
    root: usize,
    p: Progress,
    n: nat,
)
    requires
        held(p),
    ensures
        held(after_records(recs, openings, root, p, n)),
    decreases n,
{
    if n > 0 {
        lemma_all_held(recs, openings, root, p, (n - 1) as nat);
        let before = after_records(recs, openings, root, p, (n - 1) as nat);
        if before.stack.len() > 0 {
            lemma_held(recs, openings, root, before);
        }
    }
}

/// Directories are handed on before what is in them, so that a tree made of what
/// is handed on leaves no node out.
pub proof fn law_parents_before_children(
    recs: Seq<RecordView>,
    openings: Seq<Opening>,
    root: usize,
    path: Seq<char>,
    seen: Set<u128>,
    s: SummaryView,
    n: nat,
)
    ensures
        ({
            let found = after_records(recs, openings, root, begun(root, path, seen, s), n).found;
            &&& scan_tree::in_order(found)
            &&& forall|b: BuilderView| #[trigger]
                scan_tree::built(b, found) ==> b.orphans == 0
        }),
{
    let p = begun(root, path, seen, s);
    assert(held(p));
    lemma_all_held(recs, openings, root, p, n);
    let found = after_records(recs, openings, root, p, n).found;
    assert forall|b: BuilderView| #[trigger] scan_tree::built(b, found) implies b.orphans == 0 by {
        scan_tree::law_no_orphans(b, found);
    }
}

} // verus!
