//! A whole scan: from what a walk hands out to a tree and a summary.
use vstd::prelude::*;

use crate::builder::{BuilderView, TreeBuilder};
use crate::node;
use crate::node::{Measure, NodeData, NodeKind};
use crate::paths;
use crate::scan;
use crate::scan::{
    ScanError, ScanErrorView, ScanEvent, ScanOptions, ScanSummary, SummaryView, UpsertView,
};
use crate::totals;
use crate::tree::Tree;
use crate::walk;
use crate::walk::{ReadingView, RootProbe, WalkEntry, WalkItem, WalkScanner, WalkStep};
use crate::NodeId;

verus! {

/// How a scan stands after some of the items of a walk.
pub struct Run {
    pub summary: SummaryView,
    /// The hard links seen.
    pub seen: Set<(u64, u64)>,
    /// The nodes handed on.
    pub found: Seq<UpsertView>,
    pub failed: Option<ScanErrorView>,
}

/// The node that an entry becomes.
pub open spec fn data_of(seen: Set<(u64, u64)>, e: WalkEntry) -> NodeData {
    walk::mapped(seen, walk::entry_name(e), e.file_type, e.reading@, scan::text_option(e.denied))
}

/// A scan after one more item. A root that cannot be opened ends it; once it is
/// cancelled, items are passed over.
pub open spec fn after_item(r: Run, item: WalkItem, cancel: bool) -> Run {
    if r.failed is Some {
        r
    } else if cancel {
        Run { summary: SummaryView { cancelled: true, ..r.summary }, ..r }
    } else {
        match item {
            WalkItem::Error(m) => Run { summary: scan::with_problem(r.summary, None, m@), ..r },
            WalkItem::Entry(e) => if e.depth == 0 && e.denied is Some {
                Run {
                    failed: Some(
                        ScanErrorView::RootUnreadable { path: e.path@, message: e.denied->0@ },
                    ),
                    ..r
                }
            } else {
                Run {
                    summary: walk::summary_after(r.summary, r.seen, e),
                    seen: walk::seen_after(
                        r.seen,
                        e.file_type,
                        e.reading@,
                        scan::text_option(e.denied),
                    ),
                    found: r.found.push(walk::upsert_of(e, data_of(r.seen, e))),
                    failed: None,
                }
            },
        }
    }
}

/// A scan after the items of a walk.
pub open spec fn run(root: Seq<char>, items: Seq<WalkItem>, cancel: bool) -> Run
    decreases items.len(),
{
    if items.len() == 0 {
        Run {
            summary: scan::no_summary(root),
            seen: Set::empty(),
            found: Seq::empty(),
            failed: None,
        }
    } else {
        after_item(run(root, items.drop_last(), cancel), items.last(), cancel)
    }
}

/// Whether `b` is a builder without a tree.
pub open spec fn nothing_built(b: BuilderView) -> bool {
    &&& b.wf()
    &&& b.state.root is None
    &&& b.state.nodes.len() == 0
    &&& b.state.free.len() == 0
    &&& b.dirs.dom() == Set::<Seq<char>>::empty()
    &&& b.orphans == 0
}

/// Whether `b` is what `a` becomes by a node that was found.
pub open spec fn took(a: BuilderView, b: BuilderView, u: UpsertView) -> bool {
    if a.is_orphan(u) {
        b == (BuilderView { orphans: (a.orphans + 1) as u64, ..a })
    } else {
        exists|id: NodeId| a.upserted(b, u, id)
    }
}

/// Whether `b` is what a builder makes of the nodes that were found, in their
/// order.
pub open spec fn built(b: BuilderView, found: Seq<UpsertView>) -> bool
    decreases found.len(),
{
    &&& b.wf()
    &&& if found.len() == 0 {
        nothing_built(b)
    } else {
        exists|a: BuilderView|
            built(a, found.drop_last()) && #[trigger] took(a, b, found.last())
    }
}

/// What the entries of a walk claim to hold, of one measure.
pub open spec fn claimed(items: Seq<WalkItem>, m: Measure) -> int
    decreases items.len(),
{
    if items.len() == 0 {
        0
    } else {
        claimed(items.drop_last(), m) + claim(items.last(), m)
    }
}

/// What one item of a walk claims to hold.
pub open spec fn claim(item: WalkItem, m: Measure) -> int {
    match item {
        WalkItem::Entry(e) => match e.reading@ {
            ReadingView::Meta(v) => match m {
                Measure::Logical => v.logical as int,
                Measure::Allocated => v.allocated as int,
                _ => 0,
            },
            ReadingView::Failed(_) => 0,
        },
        WalkItem::Error(_) => 0,
    }
}

/// Whether the nodes and the bytes of a walk can be counted.
pub open spec fn countable(items: Seq<WalkItem>) -> bool {
    &&& items.len() <= u32::MAX
    &&& claimed(items, Measure::Logical) <= u64::MAX
    &&& claimed(items, Measure::Allocated) <= u64::MAX
}

proof fn lemma_claimed_prefix(items: Seq<WalkItem>, k: int, m: Measure)
    requires
        0 <= k <= items.len(),
    ensures
        0 <= claimed(items.take(k), m) <= claimed(items, m),
    decreases items.len(),
{
    if items.len() == 0 {
        assert(items.take(k) =~= items);
    } else if k < items.len() {
        assert(items.take(k) =~= items.drop_last().take(k));
        lemma_claimed_prefix(items.drop_last(), k, m);
    } else {
        assert(items.take(k) =~= items);
        lemma_claimed_prefix(items.drop_last(), k - 1, m);
        assert(items.drop_last().take(k - 1) =~= items.drop_last());
    }
}

/// What a scan has counted is no more than what was claimed.
pub open spec fn bounded(r: Run, items: Seq<WalkItem>) -> bool {
    &&& r.summary.entries <= items.len()
    &&& r.summary.files <= r.summary.entries
    &&& r.summary.dirs <= r.summary.entries
    &&& r.summary.unaccessible <= items.len()
    &&& r.summary.logical_size <= claimed(items, Measure::Logical)
    &&& r.summary.allocated_size <= claimed(items, Measure::Allocated)
    &&& r.found.len() <= items.len()
}

proof fn lemma_run_step(root: Seq<char>, items: Seq<WalkItem>, k: int, cancel: bool)
    requires
        0 <= k < items.len(),
        countable(items),
        bounded(run(root, items.take(k), cancel), items.take(k)),
    ensures
        run(root, items.take(k + 1), cancel) == after_item(
            run(root, items.take(k), cancel),
            items[k],
            cancel,
        ),
        bounded(run(root, items.take(k + 1), cancel), items.take(k + 1)),
        items[k] matches WalkItem::Entry(e) ==> scan::can_count(
            run(root, items.take(k), cancel).summary,
            data_of(run(root, items.take(k), cancel).seen, e),
        ),
{
    assert(items.take(k + 1).drop_last() =~= items.take(k));
    assert(items.take(k + 1).last() == items[k]);
    assert(claimed(items.take(k + 1), Measure::Logical) == claimed(items.take(k), Measure::Logical)
        + claim(items[k], Measure::Logical));
    assert(claimed(items.take(k + 1), Measure::Allocated) == claimed(
        items.take(k),
        Measure::Allocated,
    ) + claim(items[k], Measure::Allocated));
    lemma_claimed_prefix(items, k + 1, Measure::Logical);
    lemma_claimed_prefix(items, k + 1, Measure::Allocated);
}

/// Scans what a walk hands out and makes a tree of it. `probe` tells what was
/// found at the root of the scan.
pub fn scan_tree(
    root: &str,
    probe: RootProbe,
    items: Vec<WalkItem>,
    opts: &ScanOptions,
    elapsed_ms: u64,
) -> (r: Result<(Tree, ScanSummary), ScanError>)
    requires
        countable(items@),
    ensures
        match probe {
            RootProbe::NotFound => r matches Err(e) && e@ == ScanErrorView::RootNotFound(root@),
            RootProbe::Unreadable(m) => r matches Err(e) && e@ == (ScanErrorView::RootUnreadable {
                path: root@,
                message: m@,
            }),
            RootProbe::Found => {
                let run = run(root@, items@, opts.cancel);
                match r {
                    Err(e) => run.failed == Some(e@),
                    Ok((tree, summary)) => {
                        &&& run.failed is None
                        &&& summary@ == (SummaryView { elapsed_ms, ..run.summary })
                        &&& tree@.wf()
                        &&& exists|b: BuilderView| #[trigger]
                            built(b, run.found) && b.state == tree@
                        &&& each_counted(summary@)
                        &&& in_order(run.found) ==> tree@.nodes.len() - tree@.free.len()
                            == summary.entries
                    },
                }
            },
        },
{
    let mut scanner = WalkScanner::new();
    let mut walked = match scanner.start(root, probe) {
        Ok(w) => w,
        Err(e) => {
            return Err(e);
        },
    };
    assert(probe is Found);
    let mut builder = TreeBuilder::new();
    let ghost all = items@;
    let ghost mut done: int = 0;
    let mut rest = items;
    let mut left: Vec<WalkItem> = Vec::new();
    while rest.len() > 0
        invariant
            left@.len() + rest@.len() == all.len(),
            rest@ == all.take(rest@.len() as int),
            forall|j: int| 0 <= j < left@.len() ==> left@[j] == all[all.len() - 1 - j],
        decreases rest@.len(),
    {
        left.push(rest.pop().unwrap());
        proof {
            assert(rest@ =~= all.take(rest@.len() as int));
        }
    }
    proof {
        assert(all.take(0) =~= Seq::empty());
    }
    while left.len() > 0
        invariant
            probe is Found,
            all == items@,
            countable(all),
            0 <= done,
            left@.len() + done == all.len(),
            forall|j: int| 0 <= j < left@.len() ==> left@[j] == all[all.len() - 1 - j],
            run(root@, all.take(done), opts.cancel).failed is None,
            bounded(run(root@, all.take(done), opts.cancel), all.take(done)),
            walked.summary@ == run(root@, all.take(done), opts.cancel).summary,
            walked.last_progress <= walked.summary.entries,
            scanner@ == run(root@, all.take(done), opts.cancel).seen,
            built(builder@, run(root@, all.take(done), opts.cancel).found),
            builder@.state.free.len() == 0,
            builder@.state.nodes.len() <= done,
            builder@.orphans <= done,
        decreases left@.len(),
    {
        let item = left.pop().unwrap();
        let ghost before = run(root@, all.take(done), opts.cancel);
        let ghost after = run(root@, all.take(done + 1), opts.cancel);
        proof {
            assert(item == all[done]);
            lemma_run_step(root@, all, done, opts.cancel);
        }
        match walked.step(&mut scanner, item, opts, false) {
            WalkStep::Skip | WalkStep::Problem(_) => {},
            WalkStep::Fail(e) => {
                proof {
                    lemma_failed(root@, all, done + 1, opts.cancel);
                }
                return Err(e);
            },
            WalkStep::Emit(u, _, _) => {
                let ghost was = builder@;
                let ghost node = u@;
                builder.apply(ScanEvent::Upsert(u));
                proof {
                    assert(after.found == before.found.push(node));
                    assert(after.found.drop_last() =~= before.found);
                    assert(after.found.last() == node);
                    assert(took(was, builder@, node));
                    assert(built(was, after.found.drop_last()));
                    assert(built(builder@, after.found));
                }
            },
        }
        proof {
            done = done + 1;
        }
    }
    proof {
        assert(all.take(done) =~= all);
    }
    let summary = walked.finish(elapsed_ms);
    let ghost last = builder@;
    let tree = builder.into_tree();
    proof {
        let found = run(root@, all, opts.cancel).found;
        assert(built(last, found) && last.state == tree@);
        law_entries_add_up(root@, all, opts.cancel);
        if in_order(found) {
            law_no_orphans(last, found);
            law_summary_matches_tree(root@, all, opts.cancel, last);
        }
    }
    Ok((tree, summary))
}

/// A failure stays.
proof fn lemma_failed(root: Seq<char>, items: Seq<WalkItem>, k: int, cancel: bool)
    requires
        0 <= k <= items.len(),
        run(root, items.take(k), cancel).failed is Some,
    ensures
        run(root, items, cancel).failed == run(root, items.take(k), cancel).failed,
    decreases items.len(),
{
    if k < items.len() {
        assert(items.take(k) =~= items.drop_last().take(k));
        lemma_failed(root, items.drop_last(), k, cancel);
    } else {
        assert(items.take(k) =~= items);
    }
}

/// What the nodes that were found add up to.
pub open spec fn found_total(found: Seq<UpsertView>, m: Measure) -> int
    decreases found.len(),
{
    if found.len() == 0 {
        0
    } else {
        found_total(found.drop_last(), m) + node::own_amount(found.last().params, m)
    }
}

/// What a summary says, of one measure.
pub open spec fn counted_total(s: SummaryView, m: Measure) -> int {
    match m {
        Measure::Logical => s.logical_size as int,
        Measure::Allocated => s.allocated_size as int,
        Measure::Files => s.files as int,
        Measure::Dirs => s.dirs as int,
    }
}

proof fn lemma_summary_counts(root: Seq<char>, items: Seq<WalkItem>, cancel: bool, m: Measure)
    requires
        countable(items),
    ensures
        bounded(run(root, items, cancel), items),
        counted_total(run(root, items, cancel).summary, m) == found_total(
            run(root, items, cancel).found,
            m,
        ),
        run(root, items, cancel).summary.entries == run(root, items, cancel).found.len(),
        each_counted(run(root, items, cancel).summary),
    decreases items.len(),
{
    if items.len() > 0 {
        let k = items.len() - 1;
        let init = items.drop_last();
        assert(items.take(k) =~= init);
        assert(items.take(k + 1) =~= items);
        lemma_claimed_prefix(items, k, Measure::Logical);
        lemma_claimed_prefix(items, k, Measure::Allocated);
        lemma_summary_counts(root, init, cancel, m);
        lemma_run_step(root, items, k, cancel);
        let before = run(root, init, cancel);
        let after = run(root, items, cancel);
        if after.found.len() > before.found.len() {
            assert(after.found.drop_last() =~= before.found);
        }
    }
}

/// If no node was left out, the tree holds what was found.
proof fn lemma_built_total(b: BuilderView, found: Seq<UpsertView>, m: Measure)
    requires
        built(b, found),
        b.orphans == 0,
        found.len() < u64::MAX,
    ensures
        match b.state.root {
            Some(r) => totals::total_at(b.state, r, m) == found_total(found, m),
            None => found.len() == 0,
        },
        b.state.free.len() == 0,
        b.state.nodes.len() == found.len(),
    decreases found.len(),
{
    if found.len() > 0 {
        let init = found.drop_last();
        let u = found.last();
        let a = choose|a: BuilderView| built(a, init) && #[trigger] took(a, b, u);
        lemma_orphans(a, init);
        assert(!a.is_orphan(u));
        lemma_built_total(a, init, m);
        let id = choose|id: NodeId| a.upserted(b, u, id);
        match a.parent_of(u) {
            Some(parent) => {
                assert(a.dirs.dom().contains(paths::canonical(u.parent_path->0)));
                a.state.lemma_all_within(parent);
                let r = a.state.root->0;
                totals::law_added_totals(a.state, b.state, parent, id, u.params, r, m);
            },
            None => {
                assert(b.state.live(id));
                b.state.lemma_rose(id);
                assert(b.state.roses(b.state.kids[id]) =~= Seq::empty());
                a.state.lemma_counts();
                match a.state.root {
                    Some(r) => {
                        assert(a.state.depth.dom().contains(r));
                        a.state.depth.dom().lemma_len0_is_empty();
                    },
                    None => {},
                }
                assert(init.len() == 0);
                assert(found_total(init, m) == 0);
            },
        }
    }
}

/// No more nodes were left out than were found.
proof fn lemma_orphans(b: BuilderView, found: Seq<UpsertView>)
    requires
        built(b, found),
        found.len() < u64::MAX,
    ensures
        b.orphans <= found.len(),
    decreases found.len(),
{
    if found.len() > 0 {
        let a = choose|a: BuilderView|
            built(a, found.drop_last()) && #[trigger] took(a, b, found.last());
        lemma_orphans(a, found.drop_last());
        if !a.is_orphan(found.last()) {
            let id = choose|id: NodeId| a.upserted(b, found.last(), id);
        }
    }
}

/// Whether every entry is counted as a file, a directory or one that could not
/// be read.
pub open spec fn each_counted(s: SummaryView) -> bool {
    s.entries == s.files + s.dirs + s.unaccessible
}

/// What a scan counts is what the root of its tree holds, in bytes, files and
/// directories, if no node was left out for want of its directory; and the
/// tree has as many nodes as the scan counts entries.
pub proof fn law_summary_matches_tree(
    root: Seq<char>,
    items: Seq<WalkItem>,
    cancel: bool,
    b: BuilderView,
)
    requires
        countable(items),
        run(root, items, cancel).failed is None,
        built(b, run(root, items, cancel).found),
        b.orphans == 0,
    ensures
        match b.state.root {
            Some(r) => {
                let s = run(root, items, cancel).summary;
                let n = b.state.nodes[r as int];
                &&& n.agg_logical == s.logical_size
                &&& n.agg_allocated == s.allocated_size
                &&& n.agg_files == s.files
                &&& n.agg_dirs == s.dirs
            },
            None => run(root, items, cancel).found.len() == 0,
        },
        b.state.nodes.len() - b.state.free.len() == run(root, items, cancel).summary.entries,
{
    let s = run(root, items, cancel).summary;
    let found = run(root, items, cancel).found;
    lemma_summary_counts(root, items, cancel, Measure::Logical);
    lemma_built_total(b, found, Measure::Logical);
    match b.state.root {
        Some(r) => {
            assert(b.state.live(r));
            b.state.law_aggregates(r);
            let n = b.state.nodes[r as int];
            assert forall|m: Measure| #[trigger] n.agg(m) == counted_total(s, m) by {
                lemma_summary_counts(root, items, cancel, m);
                lemma_built_total(b, found, m);
            }
            assert(n.agg(Measure::Logical) == s.logical_size);
            assert(n.agg(Measure::Allocated) == s.allocated_size);
            assert(n.agg(Measure::Files) == s.files);
            assert(n.agg(Measure::Dirs) == s.dirs);
        },
        None => {},
    }
}

/// Every entry that a scan counts is a file, a directory or one that could not
/// be read.
pub proof fn law_entries_add_up(root: Seq<char>, items: Seq<WalkItem>, cancel: bool)
    requires
        countable(items),
    ensures
        each_counted(run(root, items, cancel).summary),
        run(root, items, cancel).summary.entries == run(root, items, cancel).found.len(),
{
    lemma_summary_counts(root, items, cancel, Measure::Logical);
}

/// Whether the nodes that were found come in order: the root first and alone
/// without a directory, and every directory before what is in it.
pub open spec fn in_order(found: Seq<UpsertView>) -> bool {
    forall|i: int|
        0 <= i < found.len() ==> match (#[trigger] found[i]).parent_path {
            None => i == 0,
            Some(p) => exists|j: int| 0 <= j < i && #[trigger] is_dir_at(found, j, p),
        }
}

/// Whether the `j`-th node that was found is the directory at a path.
pub open spec fn is_dir_at(found: Seq<UpsertView>, j: int, path: Seq<char>) -> bool {
    found[j].params.kind == NodeKind::Directory && paths::canonical(found[j].path)
        == paths::canonical(path)
}

/// If every directory comes before what is in it, no node is left out.
pub proof fn law_no_orphans(b: BuilderView, found: Seq<UpsertView>)
    requires
        built(b, found),
        in_order(found),
    ensures
        b.orphans == 0,
        found.len() > 0 ==> b.state.root is Some,
{
    lemma_in_order(b, found);
}

proof fn lemma_in_order(b: BuilderView, found: Seq<UpsertView>)
    requires
        built(b, found),
        in_order(found),
    ensures
        b.orphans == 0,
        (b.state.root is Some) == (found.len() > 0),
        forall|j: int|
            0 <= j < found.len() && (#[trigger] found[j]).params.kind == NodeKind::Directory
                ==> b.dirs.dom().contains(paths::canonical(found[j].path)),
    decreases found.len(),
{
    if found.len() > 0 {
        let init = found.drop_last();
        let u = found.last();
        let n = found.len() - 1;
        let a = choose|a: BuilderView| built(a, init) && #[trigger] took(a, b, u);
        assert forall|i: int| 0 <= i < init.len() implies match (#[trigger] init[i]).parent_path {
            None => i == 0,
            Some(p) => exists|j: int| 0 <= j < i && #[trigger] is_dir_at(init, j, p),
        } by {
            assert(init[i] == found[i]);
            if let Some(p) = init[i].parent_path {
                let j = choose|j: int| 0 <= j < i && #[trigger] is_dir_at(found, j, p);
                assert(is_dir_at(init, j, p));
            }
        }
        lemma_in_order(a, init);
        assert(found[n] == u);
        match u.parent_path {
            None => {
                a.state.lemma_counts();
            },
            Some(p) => {
                let j = choose|j: int| 0 <= j < n && #[trigger] is_dir_at(found, j, p);
                assert(init[j] == found[j]);
            },
        }
        assert(!a.is_orphan(u));
        let id = choose|id: NodeId| a.upserted(b, u, id);
        assert forall|j: int|
            0 <= j < found.len() && (#[trigger] found[j]).params.kind
                == NodeKind::Directory implies b.dirs.dom().contains(
            paths::canonical(found[j].path),
        ) by {
            if j < n {
                assert(init[j] == found[j]);
            }
        }
    }
}

} // verus!
