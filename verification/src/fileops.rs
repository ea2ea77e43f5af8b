//! Deleting an element: what is asked before, and what is said while it goes on.
use vstd::prelude::*;
use vstd::string::*;

use crate::filter::FilterVerdict;
use crate::model::State;
use crate::sizes;
use crate::text;
use crate::view::ScanView;
use crate::visit;
use crate::NodeId;

verus! {

/// One thing that is to be deleted.
#[derive(Debug, PartialEq, Eq)]
pub struct PlanItem {
    pub path: String,
    /// The bytes that it takes with all that is in it, filtered or not.
    pub total_bytes: u64,
    /// Whether the filter keeps part of it from sight.
    pub filter_hidden: bool,
}

/// The question whether something is to be deleted, and the answer to it.
pub struct DeleteDialog {
    pub item: PlanItem,
    pub node: NodeId,
    /// How many bytes are free again.
    pub freed: u64,
    /// Whether deleting has begun.
    pub running: bool,
    /// How it ended: what could not be deleted, if anything.
    pub result: Option<Result<(), Vec<String>>>,
    /// Whether what is left was scanned anew.
    pub rescanned: bool,
}

/// What is told while deleting goes on.
pub enum DeleteMsg {
    /// So many bytes are free again.
    Freed(u64),
    /// It ended.
    Done(Result<(), Vec<String>>),
}

/// Whether the filter keeps part of a subtree from sight.
pub open spec fn partly_hidden(v: &ScanView, id: NodeId) -> bool {
    exists|x: NodeId| #[trigger]
        v.state().within(x, id) && v.verdict_on(x) != FilterVerdict::Visible
}

/// Whether the filter keeps part of a subtree from sight.
pub fn subtree_has_filtered_out(v: &ScanView, id: NodeId) -> (r: bool)
    requires
        v.wf(),
        v.state().live(id),
    ensures
        r == partly_hidden(v, id),
{
    let ids = visit::subtree_ids(v.tree(), id);
    proof {
        visit::lemma_subtree(v.state(), id);
    }
    for i in 0..ids.len()
        invariant
            v.wf(),
            ids@ == visit::subtree(v.state(), id),
            forall|x: NodeId| #[trigger] ids@.contains(x) <==> v.state().within(x, id),
            forall|j: int|
                0 <= j < i ==> v.verdict_on(#[trigger] ids@[j]) == FilterVerdict::Visible,
    {
        if v.verdict(ids[i]) != FilterVerdict::Visible {
            proof {
                assert(ids@.contains(ids@[i as int]));
                assert(v.state().within(ids@[i as int], id));
            }
            return true;
        }
    }
    proof {
        assert forall|x: NodeId| #[trigger] v.state().within(x, id) implies v.verdict_on(x)
            == FilterVerdict::Visible by {
            assert(ids@.contains(x));
            let j = choose|j: int| 0 <= j < ids@.len() && ids@[j] == x;
            assert(v.verdict_on(ids@[j]) == FilterVerdict::Visible);
        }
    }
    false
}

/// The question whether an element is to be deleted.
pub fn delete_plan_for(v: &ScanView, id: NodeId) -> (d: DeleteDialog)
    requires
        v.wf(),
        v.state().live(id),
    ensures
        d.item.path@ == v.state().path_to(id),
        d.item.total_bytes == v.state().nodes[id as int].agg_allocated,
        d.item.filter_hidden == (v.filters() && partly_hidden(v, id)),
        d.node == id,
        d.freed == 0,
        !d.running,
        d.result is None,
        !d.rescanned,
{
    proof {
        assert(v.state().node_ok(id));
    }
    let filter_hidden = v.has_active_filter() && subtree_has_filtered_out(v, id);
    DeleteDialog {
        item: PlanItem {
            path: v.tree().path(id),
            total_bytes: v.tree().node(id).agg_allocated,
            filter_hidden,
        },
        node: id,
        freed: 0,
        running: false,
        result: None,
        rescanned: false,
    }
}

/// What is shown of a question.
pub open spec fn dialog_text(d: &DeleteDialog) -> Seq<Seq<char>> {
    let total = sizes::bytes_text(d.item.total_bytes as nat);
    let head = seq![
        "The following will be moved to the Recycle Bin:"@,
        d.item.path@ + " — "@ + total,
        "Total: "@ + total,
    ];
    let warned = if d.item.filter_hidden {
        head.push(
            "⚠ An active filter hides part of the contents — the true total above includes everything that will be deleted."@,
        )
    } else {
        head
    };
    let counted = if d.running {
        warned.push("Freed "@ + sizes::bytes_text(d.freed as nat) + " of "@ + total)
    } else {
        warned
    };
    match d.result {
        None => counted,
        Some(Ok(_)) => counted.push("Done."@),
        Some(Err(failures)) => counted + text::texts(failures@),
    }
}

impl DeleteDialog {
    /// Takes in what is told while deleting goes on.
    pub fn take(&mut self, msg: DeleteMsg)
        requires
            msg matches DeleteMsg::Freed(n) ==> old(self).freed + n <= u64::MAX,
        ensures
            match msg {
                DeleteMsg::Freed(n) => *final(self) == (DeleteDialog {
                    freed: (old(self).freed + n) as u64,
                    ..*old(self)
                }),
                DeleteMsg::Done(r) => *final(self) == (DeleteDialog {
                    result: Some(r),
                    ..*old(self)
                }),
            },
    {
        match msg {
            DeleteMsg::Freed(n) => {
                self.freed = self.freed + n;
            },
            DeleteMsg::Done(r) => {
                self.result = Some(r);
            },
        }
    }

    /// Begins to delete.
    pub fn start(&mut self)
        ensures
            *final(self) == (DeleteDialog { running: true, ..*old(self) }),
    {
        self.running = true;
    }

    /// What is shown of the question.
    pub fn lines(&self) -> (v: Vec<String>)
        ensures
            text::texts(v@) == dialog_text(self),
    {
        let total = sizes::format_bytes(self.item.total_bytes);
        let mut v: Vec<String> = Vec::new();
        v.push("The following will be moved to the Recycle Bin:".to_owned());
        let mut line = self.item.path.clone();
        line.append(" — ");
        line.append(total.as_str());
        v.push(line);
        let mut line = "Total: ".to_owned();
        line.append(total.as_str());
        v.push(line);
        if self.item.filter_hidden {
            v.push(
                "⚠ An active filter hides part of the contents — the true total above includes everything that will be deleted.".to_owned(),
            );
        }
        if self.running {
            let mut line = "Freed ".to_owned();
            line.append(sizes::format_bytes(self.freed).as_str());
            line.append(" of ");
            line.append(total.as_str());
            v.push(line);
        }
        let ghost counted = text::texts(v@);
        match &self.result {
            None => {
                proof {
                    assert(text::texts(v@) =~= dialog_text(self));
                }
            },
            Some(Ok(_)) => {
                v.push("Done.".to_owned());
                proof {
                    assert(text::texts(v@) =~= dialog_text(self));
                }
            },
            Some(Err(failures)) => {
                for i in 0..failures.len()
                    invariant
                        text::texts(v@) == counted + text::texts(failures@).take(i as int),
                {
                    let ghost before = v@;
                    v.push(failures[i].clone());
                    proof {
                        assert(text::texts(v@) =~= text::texts(before).push(failures@[i as int]@));
                        assert(text::texts(failures@).take(i + 1) =~= text::texts(failures@).take(
                            i as int,
                        ).push(failures@[i as int]@));
                        assert(counted + text::texts(failures@).take(i + 1) =~= (counted
                            + text::texts(failures@).take(i as int)).push(failures@[i as int]@));
                    }
                }
                proof {
                    assert(text::texts(failures@).take(failures@.len() as int) =~= text::texts(
                        failures@,
                    ));
                    assert(text::texts(v@) =~= dialog_text(self));
                }
            },
        }
        v
    }

    /// Whether the question is answered and all is done, so that it can only be
    /// put away.
    pub fn is_done(&self) -> (r: bool)
        ensures
            r == (self.result is Some),
    {
        self.result.is_some()
    }

    /// The paths to be scanned anew now that deleting has ended: once, and not
    /// where there is nothing above what was deleted, nor in a snapshot.
    pub fn take_rescan(&mut self, v: &ScanView) -> (r: Option<String>)
        requires
            v.wf(),
            v.state().live(old(self).node),
        ensures
            ({
                let up = v.state().nodes[old(self).node as int].parent;
                if old(self).result is Some && !old(self).rescanned && up is Some
                    && !v.is_loaded() {
                    &&& r matches Some(p) && p@ == v.state().path_to(up->0)
                    &&& *final(self) == (DeleteDialog { rescanned: true, ..*old(self) })
                } else {
                    r is None && *final(self) == *old(self)
                }
            }),
    {
        if self.result.is_none() || self.rescanned || v.from_snapshot() {
            return None;
        }
        let mut nodes: Vec<NodeId> = Vec::new();
        nodes.push(self.node);
        let targets = rescan_targets(v, &nodes);
        proof {
            assert(nodes@.drop_last() =~= Seq::<NodeId>::empty());
            assert(parents_of(v.state(), nodes@.drop_last()) =~= Seq::<Seq<char>>::empty());
            assert(nodes@.last() == self.node);
            assert(text::texts(targets@).len() == targets@.len());
        }
        if targets.len() == 0 {
            return None;
        }
        self.rescanned = true;
        proof {
            assert(text::texts(targets@)[0] == targets@[0]@);
        }
        Some(targets[0].clone())
    }
}

/// The paths of what is directly above some nodes.
pub open spec fn parents_of(s: State, nodes: Seq<NodeId>) -> Seq<Seq<char>>
    decreases nodes.len(),
{
    if nodes.len() == 0 {
        Seq::empty()
    } else {
        let before = parents_of(s, nodes.drop_last());
        match s.nodes[nodes.last() as int].parent {
            Some(up) => before.push(s.path_to(up)),
            None => before,
        }
    }
}

/// The paths of what is directly above some nodes.
pub fn rescan_targets(v: &ScanView, nodes: &Vec<NodeId>) -> (r: Vec<String>)
    requires
        v.wf(),
        forall|i: int| 0 <= i < nodes@.len() ==> v.state().live(#[trigger] nodes@[i]),
    ensures
        text::texts(r@) == parents_of(v.state(), nodes@),
{
    let mut r: Vec<String> = Vec::new();
    proof {
        assert(nodes@.take(0) =~= Seq::empty());
        assert(text::texts(r@) =~= Seq::empty());
    }
    for i in 0..nodes.len()
        invariant
            v.wf(),
            forall|i: int| 0 <= i < nodes@.len() ==> v.state().live(#[trigger] nodes@[i]),
            text::texts(r@) == parents_of(v.state(), nodes@.take(i as int)),
    {
        let id: NodeId = nodes[i];
        proof {
            assert(v.state().node_ok(id));
            assert(nodes@.take(i + 1).drop_last() =~= nodes@.take(i as int));
            assert(nodes@.take(i + 1).last() == id);
        }
        if let Some(up) = v.tree().node(id).parent {
            proof {
                v.state().lemma_parent(id, up);
            }
            let p = v.tree().path(up);
            let ghost before = r@;
            r.push(p);
            proof {
                assert(text::texts(r@) =~= text::texts(before).push(p@));
            }
        }
    }
    proof {
        assert(nodes@.take(nodes@.len() as int) =~= nodes@);
    }
    r
}

/// The dialog names what goes, how large it is and, once it runs, how much of that
/// is freed; it warns where a filter hides part of it and says how it ended.
pub proof fn law_dialog_lines(d: &DeleteDialog)
    ensures
        ({
            let lines = dialog_text(d);
            let total = sizes::bytes_text(d.item.total_bytes as nat);
            let warned: int = if d.item.filter_hidden {
                1
            } else {
                0
            };
            let counted: int = if d.running {
                1
            } else {
                0
            };
            &&& lines[0] == "The following will be moved to the Recycle Bin:"@
            &&& lines[1] == d.item.path@ + " — "@ + total
            &&& lines[2] == "Total: "@ + total
            &&& d.running ==> lines[3 + warned] == "Freed "@ + sizes::bytes_text(d.freed as nat)
                + " of "@ + total
            &&& d.result is None ==> lines.len() == 3 + warned + counted
            &&& d.result matches Some(Ok(_)) ==> lines.len() == 4 + warned + counted && lines[3
                + warned + counted] == "Done."@
            &&& d.result matches Some(Err(f)) ==> lines.skip(3 + warned + counted) == text::texts(f@)
        }),
{
    let lines = dialog_text(d);
    if let Some(Err(f)) = d.result {
        let k = lines.len() - f@.len();
        assert(lines.skip(k) =~= text::texts(f@));
    }
}

/// After removals the folders that held what was removed are scanned anew, in order;
/// the root of a tree has none.
pub proof fn law_rescan_targets(s: State, nodes: Seq<NodeId>, last: NodeId, up: NodeId)
    ensures
        parents_of(s, Seq::empty()).len() == 0,
        s.nodes[last as int].parent == Some(up) ==> parents_of(s, nodes.push(last)) == parents_of(
            s,
            nodes,
        ).push(s.path_to(up)),
        s.nodes[last as int].parent is None ==> parents_of(s, nodes.push(last)) == parents_of(
            s,
            nodes,
        ),
{
    assert(nodes.push(last).drop_last() =~= nodes);
}

/// What was removed alone has its folder scanned anew.
pub proof fn law_rescan_target(v: &ScanView, nodes: &Vec<NodeId>, up: NodeId, r: Vec<String>)
    requires
        v.wf(),
        nodes@.len() == 1,
        v.state().live(nodes@[0]),
        v.state().nodes[nodes@[0] as int].parent == Some(up),
        call_ensures(rescan_targets, (v, nodes), r),
    ensures
        r@.len() == 1,
        r@[0]@ == v.state().path_to(up),
{
    law_rescan_targets(v.state(), Seq::empty(), nodes@[0], up);
    assert(Seq::<NodeId>::empty().push(nodes@[0]) =~= nodes@);
    let t = text::texts(r@);
    assert(t.len() == r@.len());
    assert(t[0] == r@[0]@);
}

} // verus!
