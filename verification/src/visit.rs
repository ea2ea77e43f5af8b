//! Walks over a subtree in depth-first order, siblings in some order.
use vstd::prelude::*;

use crate::model::State;
use crate::tree::Tree;
use crate::NodeId;

verus! {

/// A node and its depth below where the walk started.
pub struct Visit {
    pub id: NodeId,
    pub depth: nat,
}

/// The walk over the subtree of `id`: the node itself, then the subtrees of its
/// children. `kids` gives the children in the order of the walk, and `fuel`
/// bounds the depth.
pub open spec fn walk(
    kids: spec_fn(NodeId) -> Seq<NodeId>,
    id: NodeId,
    depth: nat,
    fuel: nat,
) -> Seq<Visit>
    decreases fuel, 0nat,
{
    if fuel == 0 {
        Seq::empty()
    } else {
        seq![Visit { id, depth }] + walk_all(kids, kids(id), depth + 1, (fuel - 1) as nat)
    }
}

/// The walks over several subtrees, one after another.
pub open spec fn walk_all(
    kids: spec_fn(NodeId) -> Seq<NodeId>,
    ids: Seq<NodeId>,
    depth: nat,
    fuel: nat,
) -> Seq<Visit>
    decreases fuel, ids.len() + 1,
{
    if ids.len() == 0 {
        Seq::empty()
    } else {
        walk(kids, ids[0], depth, fuel) + walk_all(kids, ids.drop_first(), depth, fuel)
    }
}

/// The depth that a subtree can have.
pub open spec fn height(s: State, id: NodeId) -> nat {
    (s.bound - s.depth[id]) as nat
}

/// The walk over the whole subtree of `id`.
pub open spec fn visits(s: State, kids: spec_fn(NodeId) -> Seq<NodeId>, id: NodeId) -> Seq<Visit> {
    walk(kids, id, 0, height(s, id))
}

/// What is left of a walk whose next subtrees are on a stack.
pub open spec fn left(
    s: State,
    kids: spec_fn(NodeId) -> Seq<NodeId>,
    stack: Seq<Visit>,
) -> Seq<Visit>
    decreases stack.len(),
{
    if stack.len() == 0 {
        Seq::empty()
    } else {
        walk(kids, stack.last().id, stack.last().depth, height(s, stack.last().id)) + left(
            s,
            kids,
            stack.drop_last(),
        )
    }
}

/// Whether `kids` gives the children of every node, each once.
pub open spec fn arranges(s: State, kids: spec_fn(NodeId) -> Seq<NodeId>) -> bool {
    forall|p: NodeId| #[trigger]
        s.live(p) ==> kids(p).no_duplicates() && forall|x: NodeId| #[trigger]
            kids(p).contains(x) <==> s.kids[p].contains(x)
}

/// Children in their order, to be put on a stack of which the last is next.
pub open spec fn stacked(ids: Seq<NodeId>, depth: nat) -> Seq<Visit> {
    Seq::new(ids.len(), |i: int| Visit { id: ids[ids.len() - 1 - i], depth })
}

/// Putting children on the stack continues the walk with them.
pub proof fn lemma_stacked(
    s: State,
    kids: spec_fn(NodeId) -> Seq<NodeId>,
    stack: Seq<Visit>,
    ids: Seq<NodeId>,
    depth: nat,
    fuel: nat,
)
    requires
        forall|i: int| 0 <= i < ids.len() ==> height(s, #[trigger] ids[i]) == fuel,
    ensures
        left(s, kids, stack + stacked(ids, depth)) == walk_all(kids, ids, depth, fuel) + left(
            s,
            kids,
            stack,
        ),
    decreases ids.len(),
{
    let all = stack + stacked(ids, depth);
    if ids.len() == 0 {
        assert(all =~= stack);
        assert(walk_all(kids, ids, depth, fuel) + left(s, kids, stack) =~= left(s, kids, stack));
    } else {
        let rest = ids.drop_first();
        assert(all.drop_last() =~= stack + stacked(rest, depth));
        assert(all.last() == (Visit { id: ids[0], depth }));
        assert forall|i: int| 0 <= i < rest.len() implies height(s, #[trigger] rest[i]) == fuel by {
            assert(rest[i] == ids[i + 1]);
        }
        lemma_stacked(s, kids, stack, rest, depth, fuel);
        assert(walk(kids, ids[0], depth, fuel) + (walk_all(kids, rest, depth, fuel) + left(
            s,
            kids,
            stack,
        )) =~= walk_all(kids, ids, depth, fuel) + left(s, kids, stack));
    }
}

/// One step of a walk: the last of the stack is visited and its children take
/// its place.
pub proof fn lemma_step(
    s: State,
    kids: spec_fn(NodeId) -> Seq<NodeId>,
    stack: Seq<Visit>,
)
    requires
        s.links(),
        arranges(s, kids),
        stack.len() > 0,
        s.live(stack.last().id),
    ensures
        left(s, kids, stack) == seq![stack.last()] + left(
            s,
            kids,
            stack.drop_last() + stacked(kids(stack.last().id), stack.last().depth + 1),
        ),
        forall|x: NodeId| #[trigger] kids(stack.last().id).contains(x) ==> s.live(x),
{
    let top = stack.last();
    let ids = kids(top.id);
    assert(s.node_ok(top.id));
    let fuel = (height(s, top.id) - 1) as nat;
    assert forall|x: NodeId| #[trigger] ids.contains(x) implies s.live(x) && height(s, x)
        == fuel by {
        assert(s.kids[top.id].contains(x));
        let i = choose|i: int| 0 <= i < s.kids[top.id].len() && s.kids[top.id][i] == x;
        assert(s.child_ok(top.id, i));
        assert(s.node_ok(x));
    }
    assert forall|i: int| 0 <= i < ids.len() implies height(s, #[trigger] ids[i]) == fuel by {
        assert(ids.contains(ids[i]));
    }
    lemma_stacked(s, kids, stack.drop_last(), ids, top.depth + 1, fuel);
    let below = walk_all(kids, ids, top.depth + 1, fuel);
    let rest = left(s, kids, stack.drop_last());
    assert((seq![top] + below) + rest =~= seq![top] + (below + rest));
}

/// The ids of a walk.
pub open spec fn ids(w: Seq<Visit>) -> Seq<NodeId> {
    Seq::new(w.len(), |i: int| w[i].id)
}

/// A walk visits the node and everything below it, each once, and each with its
/// depth.
pub proof fn law_visits(
    s: State,
    kids: spec_fn(NodeId) -> Seq<NodeId>,
    id: NodeId,
)
    requires
        s.links(),
        s.live(id),
        arranges(s, kids),
    ensures
        ids(visits(s, kids, id)).no_duplicates(),
        forall|x: NodeId| #[trigger] ids(visits(s, kids, id)).contains(x) <==> s.within(x, id),
        forall|i: int|
            0 <= i < visits(s, kids, id).len() ==> (#[trigger] visits(s, kids, id)[i]).depth
                == s.depth[visits(s, kids, id)[i].id] - s.depth[id],
{
    assert(s.node_ok(id));
    lemma_walk(s, kids, id, 0);
}

proof fn lemma_walk(
    s: State,
    kids: spec_fn(NodeId) -> Seq<NodeId>,
    id: NodeId,
    depth: nat,
)
    requires
        s.links(),
        s.live(id),
        arranges(s, kids),
    ensures
        ids(walk(kids, id, depth, height(s, id))).no_duplicates(),
        forall|x: NodeId| #[trigger]
            ids(walk(kids, id, depth, height(s, id))).contains(x) <==> s.within(x, id),
        forall|i: int|
            0 <= i < walk(kids, id, depth, height(s, id)).len() ==> (#[trigger] walk(
                kids,
                id,
                depth,
                height(s, id),
            )[i]).depth == depth + s.depth[walk(kids, id, depth, height(s, id))[i].id]
                - s.depth[id],
    decreases height(s, id), kids(id).len() + 1,
{
    assert(s.node_ok(id));
    let fuel = (height(s, id) - 1) as nat;
    let list = kids(id);
    let below = walk_all(kids, list, depth + 1, fuel);
    let w = walk(kids, id, depth, height(s, id));
    assert(w == seq![Visit { id, depth }] + below);
    assert forall|i: int| 0 <= i < list.len() implies s.kids[id].contains(#[trigger] list[i]) by {
        assert(list.contains(list[i]));
    }
    lemma_below(s, kids, id, list, depth + 1);
    assert forall|x: NodeId| #[trigger] ids(w).contains(x) <==> s.within(x, id) by {
        s.lemma_within(x, id);
        if ids(w).contains(x) {
            let i = choose|i: int| 0 <= i < w.len() && ids(w)[i] == x;
            if i > 0 {
                assert(below[i - 1] == w[i]);
                assert(ids(below)[i - 1] == x);
                assert(ids(below).contains(x));
                let k = choose|k: int| 0 <= k < list.len() && s.within(x, #[trigger] list[k]);
                assert(list.contains(list[k]));
                assert(s.kids[id].contains(list[k]));
                let j = choose|j: int| 0 <= j < s.kids[id].len() && s.kids[id][j] == list[k];
                assert(s.within(x, s.kids[id][j]));
            }
        }
        if s.within(x, id) {
            if x == id {
                assert(ids(w)[0] == x);
            } else {
                let j = choose|j: int|
                    0 <= j < s.kids[id].len() && s.within(x, #[trigger] s.kids[id][j]);
                assert(s.kids[id].contains(s.kids[id][j]));
                assert(list.contains(s.kids[id][j]));
                let k = choose|k: int| 0 <= k < list.len() && list[k] == s.kids[id][j];
                assert(s.within(x, list[k]));
                assert(ids(below).contains(x));
                let i = choose|i: int| 0 <= i < below.len() && ids(below)[i] == x;
                assert(ids(w)[i + 1] == x);
            }
        }
    }
    assert forall|i: int, j: int| 0 <= i < j < ids(w).len() implies ids(w)[i] != ids(w)[j] by {
        assert(ids(w)[j] == ids(below)[j - 1]);
        assert(ids(below).contains(ids(below)[j - 1]));
        if i == 0 {
            let x = ids(below)[j - 1];
            let k = choose|k: int| 0 <= k < list.len() && s.within(x, #[trigger] list[k]);
            assert(list.contains(list[k]));
            assert(s.kids[id].contains(list[k]));
            let m = choose|m: int| 0 <= m < s.kids[id].len() && s.kids[id][m] == list[k];
            assert(s.child_ok(id, m));
            assert(s.depth[x] >= s.depth[list[k]]);
        } else {
            assert(ids(w)[i] == ids(below)[i - 1]);
        }
    }
    assert forall|i: int| 0 <= i < w.len() implies (#[trigger] w[i]).depth == depth
        + s.depth[w[i].id] - s.depth[id] by {
        if i > 0 {
            assert(w[i] == below[i - 1]);
        }
    }
}

/// The walks over some children of `p`.
proof fn lemma_below(
    s: State,
    kids: spec_fn(NodeId) -> Seq<NodeId>,
    p: NodeId,
    list: Seq<NodeId>,
    depth: nat,
)
    requires
        s.links(),
        s.live(p),
        arranges(s, kids),
        list.no_duplicates(),
        forall|i: int| 0 <= i < list.len() ==> s.kids[p].contains(#[trigger] list[i]),
    ensures
        ids(walk_all(kids, list, depth, (height(s, p) - 1) as nat)).no_duplicates(),
        forall|x: NodeId| #[trigger]
            ids(walk_all(kids, list, depth, (height(s, p) - 1) as nat)).contains(x) <==> exists|
                k: int,
            |
                0 <= k < list.len() && s.within(x, #[trigger] list[k]),
        forall|i: int|
            0 <= i < walk_all(kids, list, depth, (height(s, p) - 1) as nat).len() ==> (
            #[trigger] walk_all(kids, list, depth, (height(s, p) - 1) as nat)[i]).depth == depth
                + s.depth[walk_all(kids, list, depth, (height(s, p) - 1) as nat)[i].id] - s.depth[p]
                - 1,
    decreases height(s, p), list.len(),
{
    let fuel = (height(s, p) - 1) as nat;
    let w = walk_all(kids, list, depth, fuel);
    assert(s.node_ok(p));
    if list.len() > 0 {
        let c = list[0];
        assert(s.kids[p].contains(c));
        let j = choose|j: int| 0 <= j < s.kids[p].len() && s.kids[p][j] == c;
        assert(s.child_ok(p, j));
        assert(s.node_ok(c));
        assert(height(s, c) == fuel);
        let rest = list.drop_first();
        assert forall|i: int| 0 <= i < rest.len() implies s.kids[p].contains(
            #[trigger] rest[i],
        ) by {
            assert(rest[i] == list[i + 1]);
        }
        let a = walk(kids, c, depth, fuel);
        let b = walk_all(kids, rest, depth, fuel);
        assert(w == a + b);
        lemma_walk(s, kids, c, depth);
        lemma_below(s, kids, p, rest, depth);
        assert forall|x: NodeId| #[trigger] ids(w).contains(x) <==> exists|k: int|
            0 <= k < list.len() && s.within(x, #[trigger] list[k]) by {
            if ids(w).contains(x) {
                let i = choose|i: int| 0 <= i < w.len() && ids(w)[i] == x;
                if i < a.len() {
                    assert(ids(a)[i] == x);
                    assert(ids(a).contains(x));
                    assert(s.within(x, list[0]));
                } else {
                    assert(ids(b)[i - a.len()] == x);
                    assert(ids(b).contains(x));
                    let k = choose|k: int| 0 <= k < rest.len() && s.within(x, #[trigger] rest[k]);
                    assert(s.within(x, list[k + 1]));
                }
            }
            if exists|k: int| 0 <= k < list.len() && s.within(x, #[trigger] list[k]) {
                let k = choose|k: int| 0 <= k < list.len() && s.within(x, #[trigger] list[k]);
                if k == 0 {
                    assert(ids(a).contains(x));
                    let i = choose|i: int| 0 <= i < a.len() && ids(a)[i] == x;
                    assert(ids(w)[i] == x);
                } else {
                    assert(s.within(x, rest[k - 1]));
                    assert(ids(b).contains(x));
                    let i = choose|i: int| 0 <= i < b.len() && ids(b)[i] == x;
                    assert(ids(w)[i + a.len()] == x);
                }
            }
        }
        assert forall|i: int, j: int| 0 <= i < j < ids(w).len() implies ids(w)[i] != ids(w)[j] by {
            if j < a.len() {
                assert(ids(a)[i] == ids(w)[i] && ids(a)[j] == ids(w)[j]);
            } else if i >= a.len() {
                assert(ids(b)[i - a.len()] == ids(w)[i] && ids(b)[j - a.len()] == ids(w)[j]);
            } else {
                let x = ids(w)[i];
                assert(ids(a)[i] == x);
                assert(ids(a).contains(x));
                if ids(w)[j] == x {
                    assert(ids(b)[j - a.len()] == x);
                    assert(ids(b).contains(x));
                    let k = choose|k: int| 0 <= k < rest.len() && s.within(x, #[trigger] rest[k]);
                    assert(s.kids[p].contains(rest[k]));
                    let m = choose|m: int| 0 <= m < s.kids[p].len() && s.kids[p][m] == rest[k];
                    assert(s.child_ok(p, m));
                    assert(rest[k] == list[k + 1]);
                    assert(list[0] != list[k + 1]);
                }
            }
        }
        assert forall|i: int| 0 <= i < w.len() implies (#[trigger] w[i]).depth == depth
            + s.depth[w[i].id] - s.depth[p] - 1 by {
            if i < a.len() {
                assert(w[i] == a[i]);
            } else {
                assert(w[i] == b[i - a.len()]);
            }
        }
    }
}

/// A walk is no longer than the arena.
pub proof fn lemma_visits_len(
    s: State,
    kids: spec_fn(NodeId) -> Seq<NodeId>,
    id: NodeId,
)
    requires
        s.wf(),
        s.live(id),
        arranges(s, kids),
    ensures
        visits(s, kids, id).len() <= 0x1_0000_0000,
        visits(s, kids, id).len() > 0,
{
    law_visits(s, kids, id);
    s.lemma_counts();
    let v = ids(visits(s, kids, id));
    v.unique_seq_to_set();
    assert(v.to_set().subset_of(s.depth.dom())) by {
        assert forall|x: NodeId| v.to_set().contains(x) implies s.depth.dom().contains(x) by {
            assert(v.contains(x));
            assert(s.within(x, id));
        }
    }
    vstd::set_lib::lemma_len_subset(v.to_set(), s.depth.dom());
    assert(s.node_ok(id));
}

/// The children of each node in the order of the tree.
pub open spec fn in_order(s: State) -> spec_fn(NodeId) -> Seq<NodeId> {
    |p: NodeId| s.kids[p]
}

pub proof fn lemma_in_order(s: State)
    requires
        s.links(),
    ensures
        arranges(s, in_order(s)),
{
    assert forall|p: NodeId| #[trigger] s.live(p) implies in_order(s)(p).no_duplicates() by {
        assert(s.node_ok(p));
    }
}

/// The nodes of a subtree, each before what is below it.
pub open spec fn subtree(s: State, id: NodeId) -> Seq<NodeId> {
    ids(visits(s, in_order(s), id))
}

/// The nodes of a subtree are the node and everything below it, each once.
pub proof fn lemma_subtree(s: State, id: NodeId)
    requires
        s.links(),
        s.live(id),
    ensures
        subtree(s, id).no_duplicates(),
        forall|x: NodeId| #[trigger] subtree(s, id).contains(x) <==> s.within(x, id),
{
    lemma_in_order(s);
    law_visits(s, in_order(s), id);
}

/// Whether every node of a walk comes before its children.
pub open spec fn parents_first(kids: spec_fn(NodeId) -> Seq<NodeId>, w: Seq<Visit>) -> bool {
    forall|i: int, c: NodeId|
        0 <= i < w.len() && kids(w[i].id).contains(c) ==> #[trigger] comes_after(w, i, c)
}

/// Whether a node comes after a place of a walk.
pub open spec fn comes_after(w: Seq<Visit>, i: int, c: NodeId) -> bool {
    exists|j: int| i < j < w.len() && (#[trigger] w[j]).id == c
}

/// Every node of a walk comes before its children.
pub proof fn law_parents_first(s: State, kids: spec_fn(NodeId) -> Seq<NodeId>, id: NodeId)
    requires
        s.links(),
        s.live(id),
        arranges(s, kids),
    ensures
        parents_first(kids, visits(s, kids, id)),
{
    lemma_parents_first(s, kids, id, 0);
}

proof fn lemma_parents_first(
    s: State,
    kids: spec_fn(NodeId) -> Seq<NodeId>,
    id: NodeId,
    depth: nat,
)
    requires
        s.links(),
        s.live(id),
        arranges(s, kids),
    ensures
        parents_first(kids, walk(kids, id, depth, height(s, id))),
        walk(kids, id, depth, height(s, id)).len() > 0,
        walk(kids, id, depth, height(s, id))[0].id == id,
    decreases height(s, id), 0nat,
{
    assert(s.node_ok(id));
    let fuel = (height(s, id) - 1) as nat;
    let below = walk_all(kids, kids(id), depth + 1, fuel);
    let w = walk(kids, id, depth, height(s, id));
    assert forall|i: int| 0 <= i < kids(id).len() implies s.live(#[trigger] kids(id)[i]) && height(
        s,
        kids(id)[i],
    ) == fuel by {
        assert(kids(id).contains(kids(id)[i]));
        let k = choose|k: int| 0 <= k < s.kids[id].len() && s.kids[id][k] == kids(id)[i];
        assert(s.child_ok(id, k));
    }
    lemma_parents_first_all(s, kids, kids(id), depth + 1, fuel);
    assert forall|i: int, c: NodeId|
        0 <= i < w.len() && kids(w[i].id).contains(c) implies #[trigger] comes_after(w, i, c) by {
        if i == 0 {
            assert(comes_after(below, -1, c));
            let j = choose|j: int| -1 < j < below.len() && (#[trigger] below[j]).id == c;
            assert(w[j + 1].id == c);
        } else {
            assert(w[i] == below[i - 1]);
            assert(comes_after(below, i - 1, c));
            let j = choose|j: int| i - 1 < j < below.len() && (#[trigger] below[j]).id == c;
            assert(w[j + 1].id == c);
        }
    }
}

proof fn lemma_parents_first_all(
    s: State,
    kids: spec_fn(NodeId) -> Seq<NodeId>,
    list: Seq<NodeId>,
    depth: nat,
    fuel: nat,
)
    requires
        s.links(),
        arranges(s, kids),
        forall|i: int|
            0 <= i < list.len() ==> s.live(#[trigger] list[i]) && height(s, list[i]) == fuel,
    ensures
        parents_first(kids, walk_all(kids, list, depth, fuel)),
        forall|c: NodeId| #[trigger]
            list.contains(c) ==> comes_after(walk_all(kids, list, depth, fuel), -1, c),
    decreases fuel, list.len() + 1,
{
    let w = walk_all(kids, list, depth, fuel);
    if list.len() > 0 {
        let rest = list.drop_first();
        let a = walk(kids, list[0], depth, fuel);
        let b = walk_all(kids, rest, depth, fuel);
        assert forall|i: int| 0 <= i < rest.len() implies s.live(#[trigger] rest[i]) && height(
            s,
            rest[i],
        ) == fuel by {
            assert(rest[i] == list[i + 1]);
        }
        lemma_parents_first(s, kids, list[0], depth);
        lemma_parents_first_all(s, kids, rest, depth, fuel);
        assert forall|i: int, c: NodeId|
            0 <= i < w.len() && kids(w[i].id).contains(c) implies #[trigger] comes_after(
            w,
            i,
            c,
        ) by {
            if i < a.len() {
                assert(w[i] == a[i]);
                assert(comes_after(a, i, c));
                let j = choose|j: int| i < j < a.len() && (#[trigger] a[j]).id == c;
                assert(w[j].id == c);
            } else {
                assert(w[i] == b[i - a.len()]);
                assert(comes_after(b, i - a.len(), c));
                let j = choose|j: int| i - a.len() < j < b.len() && (#[trigger] b[j]).id == c;
                assert(w[a.len() + j].id == c);
            }
        }
        assert forall|c: NodeId| #[trigger] list.contains(c) implies comes_after(w, -1, c) by {
            let k = list.index_of(c);
            if k == 0 {
                assert(w[0] == a[0]);
            } else {
                assert(rest[k - 1] == c);
                assert(rest.contains(c));
                let j = choose|j: int| -1 < j < b.len() && (#[trigger] b[j]).id == c;
                assert(w[a.len() + j].id == c);
            }
        }
    }
}

/// The stack of a walk, at any depths.
spec fn stack_visits(stack: Seq<NodeId>, depths: Seq<nat>) -> Seq<Visit> {
    Seq::new(stack.len(), |i: int| Visit { id: stack[i], depth: depths[i] })
}

/// The nodes of a subtree, each before what is below it.
pub fn subtree_ids(tree: &Tree, root: NodeId) -> (out: Vec<NodeId>)
    requires
        tree@.links(),
        tree@.live(root),
    ensures
        out@ == subtree(tree@, root),
{
    let ghost s = tree@;
    let ghost kids = in_order(s);
    let ghost all = visits(s, kids, root);
    let mut out: Vec<NodeId> = Vec::new();
    let mut stack: Vec<NodeId> = Vec::new();
    stack.push(root);
    let ghost mut depths: Seq<nat> = seq![0nat];
    proof {
        lemma_in_order(s);
        let st = stack_visits(stack@, depths);
        assert(st.drop_last() =~= Seq::<Visit>::empty());
        assert(left(s, kids, st.drop_last()) == Seq::<Visit>::empty());
        assert(st.last() == (Visit { id: root, depth: 0 }));
        assert(left(s, kids, st) =~= all);
        assert(out@ + ids(all) =~= ids(all));
    }
    while stack.len() > 0
        invariant
            s == tree@,
            s.links(),
            kids == in_order(s),
            arranges(s, kids),
            depths.len() == stack@.len(),
            forall|i: int| 0 <= i < stack@.len() ==> s.live(#[trigger] stack@[i]),
            out@ + ids(left(s, kids, stack_visits(stack@, depths))) == ids(all),
        decreases left(s, kids, stack_visits(stack@, depths)).len(),
    {
        let ghost before = stack_visits(stack@, depths);
        let ghost rest = left(s, kids, before);
        let ghost so_far = out@;
        proof {
            assert(s.live(stack@[stack@.len() - 1]));
        }
        let id: NodeId = stack.pop().unwrap();
        let ghost popped = stack@;
        proof {
            assert(before.last().id == id);
            assert(before.drop_last() =~= stack_visits(popped, depths.drop_last()));
            lemma_step(s, kids, before);
        }
        out.push(id);
        let children = tree.children(id).collect();
        let ghost d = before.last().depth + 1;
        let mut k: usize = children.len();
        while k > 0
            invariant
                children@ == s.kids[id],
                k <= children@.len(),
                stack@.len() == popped.len() + children@.len() - k,
                forall|i: int| 0 <= i < popped.len() ==> stack@[i] == popped[i],
                forall|i: int|
                    popped.len() <= i < stack@.len() ==> (#[trigger] stack@[i])
                        == children@[children@.len() - 1 - (i - popped.len())],
            decreases k,
        {
            k = k - 1;
            stack.push(children[k]);
        }
        proof {
            depths = depths.drop_last() + Seq::new(children@.len(), |i: int| d);
            let now = stack_visits(stack@, depths);
            assert(now =~= before.drop_last() + stacked(kids(id), d));
            let after = left(s, kids, now);
            assert(rest == seq![before.last()] + after);
            assert(ids(rest) =~= seq![id] + ids(after));
            assert(out@ + ids(after) =~= so_far + ids(rest));
            assert forall|i: int| 0 <= i < stack@.len() implies s.live(#[trigger] stack@[i]) by {
                if i >= popped.len() {
                    assert(kids(id).contains(stack@[i]));
                } else {
                    assert(popped[i] == stack@[i]);
                }
            }
        }
    }
    proof {
        let none = left(s, kids, stack_visits(stack@, depths));
        assert(ids(none) =~= Seq::<NodeId>::empty());
        assert(out@ + ids(none) =~= out@);
    }
    out
}

/// Whether an id is marked.
pub open spec fn marked(marks: Seq<bool>, x: NodeId) -> bool {
    x < marks.len() && marks[x as int]
}

/// Whether an id is marked.
pub fn is_marked(marks: &Vec<bool>, x: NodeId) -> (r: bool)
    ensures
        r == marked(marks@, x),
{
    let i: usize = x as usize;
    i < marks.len() && marks[i]
}

/// Marks for the ids of a list.
pub fn marks_of(ids: &Vec<NodeId>) -> (marks: Vec<bool>)
    ensures
        forall|x: NodeId| #[trigger] marked(marks@, x) <==> ids@.contains(x),
{
    let mut marks: Vec<bool> = Vec::new();
    for i in 0..ids.len()
        invariant
            forall|x: NodeId| #[trigger]
                marked(marks@, x) <==> exists|j: int| 0 <= j < i && ids@[j] == x,
    {
        let k: usize = ids[i] as usize;
        let ghost before = marks@;
        while marks.len() <= k
            invariant
                before.len() <= marks@.len(),
                forall|x: int| 0 <= x < before.len() ==> marks@[x] == before[x],
                forall|x: int| before.len() <= x < marks@.len() ==> !marks@[x],
            decreases k + 1 - marks@.len(),
        {
            marks.push(false);
        }
        let ghost grown = marks@;
        marks.set(k, true);
        proof {
            assert forall|x: NodeId| #[trigger]
                marked(marks@, x) <==> exists|j: int| 0 <= j < i + 1 && ids@[j] == x by {
                assert(marked(before, x) <==> exists|j: int| 0 <= j < i && ids@[j] == x);
                if x == ids@[i as int] {
                    assert(marks@[x as int]);
                } else if marked(marks@, x) {
                    assert(grown[x as int] == marks@[x as int]);
                    assert(marked(before, x));
                }
                if marked(before, x) {
                    let j = choose|j: int| 0 <= j < i && ids@[j] == x;
                    assert(ids@[j] == x);
                }
            }
        }
    }
    marks
}

} // verus!
