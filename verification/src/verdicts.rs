//! What a filter makes of every node of a tree, in one pass from below.
use vstd::prelude::*;

use crate::filter;
use crate::filter::{Filter, FilterVerdict};
use crate::filter_ast::ConditionView;
use crate::model::State;
use crate::tree::Tree;
use crate::visit;
use crate::FileTime;
use crate::NodeId;

verus! {

/// A node that does not pass has something below it that does exactly if one of
/// its children is not hidden.
pub proof fn lemma_from_below(conds: Seq<ConditionView>, s: State, id: NodeId, now: FileTime)
    requires
        s.links(),
        s.live(id),
    ensures
        filter::passes_below(conds, s, id, now) <==> exists|i: int|
            0 <= i < s.kids[id].len() && filter::verdict(conds, s, #[trigger] s.kids[id][i], now)
                != FilterVerdict::Hidden,
{
    assert(s.node_ok(id));
    if filter::passes_below(conds, s, id, now) {
        let x = choose|x: NodeId| #[trigger]
            s.within(x, id) && x != id && filter::passes(conds, s, x, now);
        s.lemma_within(x, id);
        let i = choose|i: int|
            0 <= i < s.kids[id].len() && s.within(x, #[trigger] s.kids[id][i]);
        let c = s.kids[id][i];
        if x != c {
            assert(filter::passes_below(conds, s, c, now));
        }
        assert(filter::verdict(conds, s, s.kids[id][i], now) != FilterVerdict::Hidden);
    }
    if exists|i: int|
        0 <= i < s.kids[id].len() && filter::verdict(conds, s, #[trigger] s.kids[id][i], now)
            != FilterVerdict::Hidden {
        let i = choose|i: int|
            0 <= i < s.kids[id].len() && filter::verdict(conds, s, #[trigger] s.kids[id][i], now)
                != FilterVerdict::Hidden;
        let c = s.kids[id][i];
        assert(s.child_ok(id, i));
        let x = if filter::passes(conds, s, c, now) {
            c
        } else {
            choose|x: NodeId| #[trigger]
                s.within(x, c) && x != c && filter::passes(conds, s, x, now)
        };
        assert(s.within(c, c));
        s.lemma_within(x, id);
        assert(s.within(x, s.kids[id][i]));
        assert(s.depth[x] >= s.depth[c]);
        assert(x != id);
        assert(filter::passes_below(conds, s, id, now));
    }
}

/// Whether verdicts are those of a filter: of each node of the subtree its own,
/// of other nodes that they are hidden. Without conditions, and without a tree,
/// there are none.
pub open spec fn judged(
    v: Seq<FilterVerdict>,
    s: State,
    root: NodeId,
    conds: Seq<ConditionView>,
    now: FileTime,
) -> bool {
    if conds.len() == 0 || s.root is None {
        v.len() == 0
    } else {
        &&& forall|x: NodeId| #[trigger]
            s.within(x, root) ==> x < v.len() && v[x as int] == filter::verdict(conds, s, x, now)
        &&& forall|x: NodeId|
            x < v.len() && !s.within(x, root) ==> #[trigger] v[x as int] == FilterVerdict::Hidden
        &&& exists|x: NodeId| #[trigger] s.within(x, root) && x + 1 == v.len()
    }
}

/// The verdict on a node that does not pass, from those on its children.
fn judge(tree: &Tree, id: NodeId, v: &Vec<FilterVerdict>) -> (dimmed: bool)
    requires
        tree@.links(),
        tree@.live(id),
        forall|i: int| 0 <= i < tree@.kids[id].len() ==> (#[trigger] tree@.kids[id][i]) < v@.len(),
    ensures
        dimmed <==> exists|i: int|
            0 <= i < tree@.kids[id].len() && v@[(#[trigger] tree@.kids[id][i]) as int]
                != FilterVerdict::Hidden,
{
    let children = tree.children(id).collect();
    for i in 0..children.len()
        invariant
            children@ == tree@.kids[id],
            forall|j: int| 0 <= j < children@.len() ==> (#[trigger] children@[j]) < v@.len(),
            forall|j: int|
                0 <= j < i ==> v@[(#[trigger] children@[j]) as int] == FilterVerdict::Hidden,
    {
        let c: usize = children[i] as usize;
        if v[c] != FilterVerdict::Hidden {
            return true;
        }
    }
    false
}

/// What a filter makes of every node of a subtree.
pub fn compute_verdicts(tree: &Tree, root: NodeId, filter: &Filter, now: FileTime) -> (v: Vec<
    FilterVerdict,
>)
    requires
        tree@.wf(),
        tree@.root is Some ==> tree@.live(root),
    ensures
        judged(v@, tree@, root, filter@.conditions, now),
{
    if filter.is_empty() || tree.root().is_none() {
        return Vec::new();
    }
    let ghost s = tree@;
    let ghost conds = filter@.conditions;
    let ghost kids = visit::in_order(s);
    let ghost w = visit::visits(s, kids, root);
    let ids = visit::subtree_ids(tree, root);
    proof {
        visit::lemma_subtree(s, root);
        visit::lemma_in_order(s);
        visit::law_parents_first(s, kids, root);
        assert(ids@ =~= visit::ids(w));
        assert(s.within(root, root));
        assert(ids@.contains(root));
    }
    let mut v: Vec<FilterVerdict> = Vec::new();
    let ghost mut top: NodeId = root;
    for i in 0..ids.len()
        invariant
            s == tree@,
            ids@ == visit::subtree(s, root),
            forall|j: int| 0 <= j < i ==> (#[trigger] ids@[j]) < v@.len(),
            forall|j: int| 0 <= j < v@.len() ==> #[trigger] v@[j] == FilterVerdict::Hidden,
            i > 0 ==> top + 1 == v@.len() && ids@.contains(top),
            i == 0 ==> v@.len() == 0,
    {
        let k: usize = ids[i] as usize;
        if v.len() <= k {
            proof {
                top = ids@[i as int];
                assert(ids@.contains(top));
            }
            while v.len() <= k
                invariant
                    v@.len() <= k + 1,
                    forall|j: int| 0 <= j < v@.len() ==> #[trigger] v@[j] == FilterVerdict::Hidden,
                decreases k + 1 - v@.len(),
            {
                v.push(FilterVerdict::Hidden);
            }
        }
    }
    let mut i: usize = ids.len();
    while i > 0
        invariant
            s == tree@,
            s.wf(),
            i <= ids@.len(),
            conds == filter@.conditions,
            kids == visit::in_order(s),
            w == visit::visits(s, kids, root),
            ids@ == visit::ids(w),
            ids@.no_duplicates(),
            visit::parents_first(kids, w),
            forall|x: NodeId| #[trigger] ids@.contains(x) <==> s.within(x, root),
            forall|j: int| 0 <= j < ids@.len() ==> (#[trigger] ids@[j]) < v@.len(),
            forall|j: int|
                i <= j < ids@.len() ==> v@[(#[trigger] ids@[j]) as int] == filter::verdict(
                    conds,
                    s,
                    ids@[j],
                    now,
                ),
            forall|x: NodeId|
                x < v@.len() && !s.within(x, root) ==> #[trigger] v@[x as int]
                    == FilterVerdict::Hidden,
            v@.len() == top + 1,
        decreases i,
    {
        i = i - 1;
        let id: NodeId = ids[i];
        proof {
            assert(ids@.contains(id));
            assert(s.within(id, root));
            assert forall|k: int| 0 <= k < s.kids[id].len() implies (#[trigger] s.kids[id][k])
                < v@.len() && v@[s.kids[id][k] as int] == filter::verdict(
                conds,
                s,
                s.kids[id][k],
                now,
            ) by {
                let c = s.kids[id][k];
                assert(kids(id).contains(c));
                assert(w[i as int].id == id);
                assert(visit::comes_after(w, i as int, c));
                let j = choose|j: int| i < j < w.len() && (#[trigger] w[j]).id == c;
                assert(ids@[j] == c);
            }
            lemma_from_below(conds, s, id, now);
        }
        let verdict = if filter.matches(tree, id, now) {
            FilterVerdict::Visible
        } else if judge(tree, id, &v) {
            FilterVerdict::Dimmed
        } else {
            FilterVerdict::Hidden
        };
        proof {
            let below = exists|k: int|
                0 <= k < s.kids[id].len() && v@[(#[trigger] s.kids[id][k]) as int]
                    != FilterVerdict::Hidden;
            if below {
                let k = choose|k: int|
                    0 <= k < s.kids[id].len() && v@[(#[trigger] s.kids[id][k]) as int]
                        != FilterVerdict::Hidden;
                assert(filter::verdict(conds, s, s.kids[id][k], now) != FilterVerdict::Hidden);
            }
            if filter::passes_below(conds, s, id, now) {
                let k = choose|k: int|
                    0 <= k < s.kids[id].len() && filter::verdict(
                        conds,
                        s,
                        #[trigger] s.kids[id][k],
                        now,
                    ) != FilterVerdict::Hidden;
                assert(v@[s.kids[id][k] as int] != FilterVerdict::Hidden);
            }
            assert(verdict == filter::verdict(conds, s, id, now));
        }
        let ghost before = v@;
        v.set(id as usize, verdict);
        proof {
            assert forall|j: int| i <= j < ids@.len() implies v@[(#[trigger] ids@[j]) as int]
                == filter::verdict(conds, s, ids@[j], now) by {
                if j > i {
                    assert(ids@[j] != ids@[i as int]);
                }
            }
        }
    }
    proof {
        assert forall|x: NodeId| #[trigger] s.within(x, root) implies x < v@.len() && v@[x as int]
            == filter::verdict(conds, s, x, now) by {
            assert(ids@.contains(x));
            let j = choose|j: int| 0 <= j < ids@.len() && ids@[j] == x;
            assert(ids@[j] < v@.len());
        }
        assert(s.within(top, root));
    }
    v
}

} // verus!
