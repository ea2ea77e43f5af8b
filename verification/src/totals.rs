//! How the totals of subtrees follow what is added and removed.
use vstd::prelude::*;

use crate::model;
use crate::model::State;
use crate::node;
use crate::node::{Measure, NodeData};
use crate::NodeId;

verus! {

/// What the subtree of `x` adds up to.
pub open spec fn total_at(s: State, x: NodeId, m: Measure) -> int {
    model::total(s.rose(x), m)
}

/// What the subtrees of the listed nodes add up to.
pub open spec fn total_of(s: State, ids: Seq<NodeId>, m: Measure) -> int {
    model::forest_total(s.roses(ids), m)
}

proof fn lemma_at(s: State, x: NodeId, m: Measure)
    requires
        s.links(),
        s.live(x),
    ensures
        total_at(s, x, m) == node::own_amount(s.nodes[x as int]@, m) + total_of(s, s.kids[x], m),
{
    s.lemma_rose(x);
}

proof fn lemma_last(s: State, ids: Seq<NodeId>, m: Measure)
    requires
        ids.len() > 0,
    ensures
        total_of(s, ids, m) == total_of(s, ids.drop_last(), m) + total_at(s, ids.last(), m),
{
    assert(s.roses(ids).drop_last() =~= s.roses(ids.drop_last()));
}

/// If one of several subtrees changes by `d`, so does what they add up to.
proof fn lemma_shift(a: State, b: State, ids: Seq<NodeId>, k: int, d: int, m: Measure)
    requires
        forall|i: int|
            0 <= i < ids.len() ==> total_at(b, #[trigger] ids[i], m) == total_at(a, ids[i], m) + if i
                == k {
                d
            } else {
                0
            },
    ensures
        total_of(b, ids, m) == total_of(a, ids, m) + if 0 <= k < ids.len() {
            d
        } else {
            0
        },
    decreases ids.len(),
{
    if ids.len() > 0 {
        lemma_last(a, ids, m);
        lemma_last(b, ids, m);
        let init = ids.drop_last();
        assert(ids[ids.len() - 1] == ids.last());
        assert forall|i: int| 0 <= i < init.len() implies total_at(b, #[trigger] init[i], m)
            == total_at(a, init[i], m) + if i == k {
            d
        } else {
            0
        } by {
            assert(init[i] == ids[i]);
        }
        lemma_shift(a, b, init, k, d, m);
    }
}

proof fn lemma_front(s: State, x: NodeId, ids: Seq<NodeId>, m: Measure)
    ensures
        total_of(s, seq![x] + ids, m) == total_at(s, x, m) + total_of(s, ids, m),
    decreases ids.len(),
{
    let all = seq![x] + ids;
    lemma_last(s, all, m);
    if ids.len() > 0 {
        lemma_last(s, ids, m);
        assert(all.drop_last() =~= seq![x] + ids.drop_last());
        lemma_front(s, x, ids.drop_last(), m);
    } else {
        assert(all.drop_last() =~= ids);
    }
}

proof fn lemma_without(s: State, ids: Seq<NodeId>, k: int, m: Measure)
    requires
        0 <= k < ids.len(),
    ensures
        total_of(s, ids.remove(k), m) == total_of(s, ids, m) - total_at(s, ids[k], m),
    decreases ids.len(),
{
    lemma_last(s, ids, m);
    if k == ids.len() - 1 {
        assert(ids.remove(k) =~= ids.drop_last());
    } else {
        lemma_last(s, ids.remove(k), m);
        assert(ids.remove(k).drop_last() =~= ids.drop_last().remove(k));
        lemma_without(s, ids.drop_last(), k, m);
    }
}

/// Of the children of a node at most one has a given node below it.
proof fn lemma_one_child(s: State, x: NodeId, y: NodeId, i: int, j: int)
    requires
        s.links(),
        s.live(x),
        0 <= i < s.kids[x].len(),
        0 <= j < s.kids[x].len(),
        s.within(y, s.kids[x][i]),
        s.within(y, s.kids[x][j]),
    ensures
        i == j,
{
    assert(s.node_ok(x));
    assert(s.child_ok(x, i));
    assert(s.child_ok(x, j));
}

/// Adding a node adds its own amount to the totals of all the nodes above it,
/// and changes no other total.
pub proof fn law_added_totals(
    a: State,
    b: State,
    parent: NodeId,
    id: NodeId,
    d: NodeData,
    x: NodeId,
    m: Measure,
)
    requires
        a.wf(),
        b.wf(),
        a.live(parent),
        a.added(b, parent, id, d),
        a.live(x),
    ensures
        total_at(b, x, m) == total_at(a, x, m) + if a.within(parent, x) {
            node::own_amount(d, m)
        } else {
            0
        },
    decreases a.bound - a.depth[x],
{
    assert(a.node_ok(x));
    assert(!a.live(id)) by {
        if a.free.len() > 0 {
            assert(a.free[a.free.len() - 1] == id);
            assert(a.free.contains(id));
        } else if a.live(id) {
            assert(a.node_ok(id));
        }
    }
    assert(b.live(x));
    let ks = a.kids[x];
    let own = node::own_amount(d, m);
    lemma_at(a, x, m);
    lemma_at(b, x, m);
    a.lemma_within(parent, x);
    let inside = |i: int| 0 <= i < ks.len() && a.within(parent, ks[i]);
    let k = if exists|i: int| #[trigger] inside(i) {
        choose|i: int| #[trigger] inside(i)
    } else {
        -1
    };
    assert forall|i: int| 0 <= i < ks.len() implies total_at(b, #[trigger] ks[i], m) == total_at(
        a,
        ks[i],
        m,
    ) + if i == k {
        own
    } else {
        0
    } by {
        assert(a.child_ok(x, i));
        assert(a.node_ok(ks[i]));
        law_added_totals(a, b, parent, id, d, ks[i], m);
        if a.within(parent, ks[i]) {
            assert(inside(i));
            assert(inside(k));
            lemma_one_child(a, x, parent, i, k);
        } else if i == k {
            assert(inside(k));
        }
    }
    lemma_shift(a, b, ks, k, own, m);
    if x == parent {
        assert forall|i: int| !#[trigger] inside(i) by {
            if inside(i) {
                assert(a.child_ok(x, i));
            }
        }
        assert(b.kids[x] == seq![id] + ks);
        lemma_front(b, id, ks, m);
        assert(b.live(id));
        lemma_at(b, id, m);
        assert(b.kids[id] =~= Seq::<NodeId>::empty());
        assert(b.roses(b.kids[id]) =~= Seq::empty());
    } else {
        assert(b.kids[x] == ks);
        if a.within(parent, x) {
            let i = choose|i: int| 0 <= i < ks.len() && a.within(parent, #[trigger] ks[i]);
            assert(inside(i));
        } else if exists|i: int| #[trigger] inside(i) {
            assert(inside(k));
            assert(a.within(parent, ks[k]));
        }
    }
}

/// Removing a subtree takes its total from the totals of all the nodes above
/// it, and changes no other total.
pub proof fn law_removed_totals(a: State, b: State, id: NodeId, x: NodeId, m: Measure)
    requires
        a.wf(),
        b.wf(),
        a.live(id),
        a.removed(b, id),
        b.live(x),
    ensures
        a.live(x),
        total_at(b, x, m) == total_at(a, x, m) - if a.within(id, x) {
            total_at(a, id, m)
        } else {
            0
        },
    decreases a.bound - a.depth[x],
{
    assert(a.live(x) && !a.within(x, id));
    assert(a.node_ok(x));
    assert(a.node_ok(id));
    let ks = a.kids[x];
    let gone = total_at(a, id, m);
    lemma_at(a, x, m);
    lemma_at(b, x, m);
    a.lemma_within(id, x);
    let q = match a.nodes[id as int].parent {
        Some(q) => q,
        None => {
            a.lemma_all_within(x);
            id
        },
    };
    a.lemma_parent(id, q);
    let inside = |i: int| 0 <= i < ks.len() && a.within(id, ks[i]);
    let k = if exists|i: int| #[trigger] inside(i) {
        choose|i: int| #[trigger] inside(i)
    } else {
        -1
    };
    let stays = |i: int| 0 <= i < ks.len() && ks[i] != id;
    assert forall|i: int| #[trigger] stays(i) implies b.live(ks[i]) && total_at(b, ks[i], m)
        == total_at(a, ks[i], m) + if i == k {
        -gone
    } else {
        0
    } by {
        assert(a.child_ok(x, i));
        assert(a.node_ok(ks[i]));
        a.lemma_within_parent(ks[i], x, id);
        assert(b.live(ks[i]));
        law_removed_totals(a, b, id, ks[i], m);
        if a.within(id, ks[i]) {
            assert(inside(i));
            assert(inside(k));
            lemma_one_child(a, x, id, i, k);
        } else if i == k {
            assert(inside(k));
        }
    }
    if x == q {
        let at = ks.index_of(id);
        assert(ks.contains(id));
        assert(0 <= at < ks.len() && ks[at] == id);
        let left = ks.remove(at);
        assert(b.kids[x] == left);
        assert(a.within(id, ks[at]));
        assert(inside(at));
        assert(inside(k));
        lemma_one_child(a, x, id, at, k);
        assert forall|i: int| 0 <= i < left.len() implies total_at(b, #[trigger] left[i], m)
            == total_at(a, left[i], m) + if i == -1 {
            -gone
        } else {
            0
        } by {
            let j = if i < at {
                i
            } else {
                i + 1
            };
            assert(left[i] == ks[j]);
            assert(ks[j] != id);
            assert(stays(j));
        }
        lemma_shift(a, b, left, -1, -gone, m);
        lemma_without(a, ks, at, m);
    } else {
        assert(b.kids[x] == ks);
        assert forall|i: int| 0 <= i < ks.len() implies total_at(b, #[trigger] ks[i], m)
            == total_at(a, ks[i], m) + if i == k {
            -gone
        } else {
            0
        } by {
            assert(a.child_ok(x, i));
            assert(stays(i));
        }
        lemma_shift(a, b, ks, k, -gone, m);
        if a.within(id, x) {
            let i = choose|i: int| 0 <= i < ks.len() && a.within(id, #[trigger] ks[i]);
            assert(inside(i));
        } else if exists|i: int| #[trigger] inside(i) {
            assert(inside(k));
            assert(a.within(id, ks[k]));
        }
    }
}

/// Removing a node that was just added leaves what was there before: the same
/// nodes with the same children, data and aggregates.
pub proof fn law_remove_undoes_add(
    a: State,
    b: State,
    c: State,
    parent: NodeId,
    id: NodeId,
    d: NodeData,
)
    requires
        a.wf(),
        b.wf(),
        c.wf(),
        a.live(parent),
        a.added(b, parent, id, d),
        b.removed(c, id),
    ensures
        c.root == a.root,
        forall|x: NodeId| c.live(x) <==> #[trigger] a.live(x),
        forall|x: NodeId|
            #![trigger a.live(x)]
            a.live(x) ==> c.kids[x] == a.kids[x] && c.depth[x] == a.depth[x]
                && c.nodes[x as int]@ == a.nodes[x as int]@,
        forall|x: NodeId, m: Measure|
            a.live(x) ==> #[trigger] c.nodes[x as int].agg(m) == a.nodes[x as int].agg(m),
{
    lemma_new_slot(a, b, parent, id, d);
    assert(b.live(id));
    assert(b.live(parent));
    assert(b.node_ok(id));
    assert(b.node_ok(parent));
    assert(b.kids[parent][0] == id);
    assert(b.child_ok(parent, 0));
    assert(b.kids[id] =~= Seq::<NodeId>::empty());
    assert forall|x: NodeId| b.within(x, id) <==> x == id by {
        b.lemma_within(x, id);
    }
    assert forall|x: NodeId| c.live(x) <==> #[trigger] a.live(x) by {}
    assert forall|x: NodeId| #[trigger] a.live(x) implies c.kids[x] == a.kids[x] && c.depth[x]
        == a.depth[x] && c.nodes[x as int]@ == a.nodes[x as int]@ by {
        if x == parent {
            let ks = b.kids[parent];
            assert(ks == seq![id] + a.kids[parent]);
            assert(ks.index_of(id) == 0) by {
                let i = ks.index_of(id);
                assert(ks.contains(id));
                assert(0 <= i < ks.len() && ks[i] == id);
            }
            assert(ks.remove(0) =~= a.kids[parent]);
        }
    }
    assert forall|x: NodeId, m: Measure| a.live(x) implies #[trigger] c.nodes[x as int].agg(m)
        == a.nodes[x as int].agg(m) by {
        law_added_totals(a, b, parent, id, d, x, m);
        assert(c.live(x));
        law_removed_totals(b, c, id, x, m);
        lemma_at(b, id, m);
        assert(b.roses(b.kids[id]) =~= Seq::empty());
        assert(a.within(parent, x) <==> b.within(id, x)) by {
            assert(b.live(x));
            b.lemma_within_parent(id, parent, x);
            lemma_same_up(a, b, parent, id, d, parent, (a.depth[parent] - a.depth[x]) as nat);
        }
        a.law_aggregates(x);
        c.law_aggregates(x);
    }
}

/// Adding a node leaves it alone which nodes lie above which.
proof fn lemma_same_up(
    a: State,
    b: State,
    parent: NodeId,
    id: NodeId,
    d: NodeData,
    y: NodeId,
    k: nat,
)
    requires
        a.links(),
        b.links(),
        a.live(parent),
        !a.live(id),
        a.added(b, parent, id, d),
        a.live(y),
    ensures
        k <= a.depth[y] ==> a.up(y, k) == b.up(y, k),
    decreases k,
{
    if 0 < k <= a.depth[y] {
        assert(a.node_ok(y));
        assert(b.live(y));
        assert(b.node_ok(y));
        assert(a.nodes[y as int].parent is Some);
        let q = a.nodes[y as int].parent->0;
        a.lemma_parent(y, q);
        let i = choose|i: int| 0 <= i < a.kids[q].len() && a.kids[q][i] == y;
        assert(b.live(q));
        assert(b.node_ok(q));
        if q == parent {
            assert(b.kids[q][i + 1] == y);
            assert(b.child_ok(q, i + 1));
        } else {
            assert(b.kids[q][i] == y);
            assert(b.child_ok(q, i));
        }
        lemma_same_up(a, b, parent, id, d, q, (k - 1) as nat);
    }
}

/// Where a node comes to hold other amounts, the totals of the node and of all
/// the nodes above it change by the difference, and no other total changes. The
/// aggregates follow.
pub proof fn law_replaced_totals(
    a: State,
    b: State,
    id: NodeId,
    d: NodeData,
    x: NodeId,
    m: Measure,
)
    requires
        a.wf(),
        b.wf(),
        a.live(id),
        a.replaced(b, id, d),
        a.live(x),
    ensures
        total_at(b, x, m) == total_at(a, x, m) + if a.within(id, x) {
            node::own_amount(d, m) - node::own_amount(a.nodes[id as int]@, m)
        } else {
            0
        },
        a.nodes[x as int].agg(m) == node::wrap64(total_at(a, x, m)),
        b.nodes[x as int].agg(m) == node::wrap64(total_at(b, x, m)),
    decreases a.bound - a.depth[x],
{
    assert(a.node_ok(x));
    assert(b.live(x));
    a.law_aggregates(x);
    b.law_aggregates(x);
    let ks = a.kids[x];
    let more = node::own_amount(d, m) - node::own_amount(a.nodes[id as int]@, m);
    lemma_at(a, x, m);
    lemma_at(b, x, m);
    a.lemma_within(id, x);
    let inside = |i: int| 0 <= i < ks.len() && a.within(id, ks[i]);
    let k = if exists|i: int| #[trigger] inside(i) {
        choose|i: int| #[trigger] inside(i)
    } else {
        -1
    };
    assert forall|i: int| 0 <= i < ks.len() implies total_at(b, #[trigger] ks[i], m) == total_at(
        a,
        ks[i],
        m,
    ) + if i == k {
        more
    } else {
        0
    } by {
        assert(a.child_ok(x, i));
        assert(a.node_ok(ks[i]));
        law_replaced_totals(a, b, id, d, ks[i], m);
        if a.within(id, ks[i]) {
            assert(inside(i));
            assert(inside(k));
            lemma_one_child(a, x, id, i, k);
        } else if i == k {
            assert(inside(k));
        }
    }
    lemma_shift(a, b, ks, k, more, m);
    if x == id {
        assert forall|i: int| !#[trigger] inside(i) by {
            if inside(i) {
                assert(a.child_ok(x, i));
            }
        }
    } else {
        assert(a.nodes[x as int].same_data(b.nodes[x as int]));
        if a.within(id, x) {
            let i = choose|i: int| 0 <= i < ks.len() && a.within(id, #[trigger] ks[i]);
            assert(inside(i));
        } else if exists|i: int| #[trigger] inside(i) {
            assert(inside(k));
            assert(a.within(id, ks[k]));
        }
    }
}

/// One addition: a node with its data, put below a parent.
pub struct Addition {
    pub parent: NodeId,
    pub id: NodeId,
    pub data: NodeData,
}

/// Whether the additions lead from the first of the states to the last, one
/// after another, and all but the first add below the node that the first
/// added.
pub open spec fn grows(states: Seq<State>, steps: Seq<Addition>) -> bool {
    &&& steps.len() > 0
    &&& states.len() == steps.len() + 1
    &&& forall|i: int| 0 <= i < states.len() ==> (#[trigger] states[i]).wf()
    &&& forall|i: int| 0 <= i < steps.len() ==> #[trigger] grows_at(states, steps, i)
}

/// Whether the `i`-th addition is as [`grows`] says.
pub open spec fn grows_at(states: Seq<State>, steps: Seq<Addition>, i: int) -> bool {
    let step = steps[i];
    &&& states[i].live(step.parent)
    &&& states[i].added(states[i + 1], step.parent, step.id, step.data)
    &&& i > 0 ==> states[i].within(step.parent, steps[0].id)
}

/// Whether `s` is `a` with a further subtree: that of `id`, the first child of
/// `parent`.
spec fn hangs(a: State, s: State, parent: NodeId, id: NodeId) -> bool {
    &&& s.root == a.root
    &&& a.live(parent)
    &&& s.live(id)
    &&& s.kids[parent] == seq![id] + a.kids[parent]
    &&& forall|x: NodeId| #[trigger] a.live(x) ==> s.live(x) && !s.within(x, id)
    &&& forall|x: NodeId| #[trigger] s.live(x) ==> a.live(x) || s.within(x, id)
    &&& forall|x: NodeId|
        #![trigger a.live(x)]
        a.live(x) ==> s.depth[x] == a.depth[x] && s.nodes[x as int]@ == a.nodes[x as int]@ && (x
            != parent ==> s.kids[x] == a.kids[x])
}

/// A slot that an addition takes was not in use.
proof fn lemma_new_slot(a: State, b: State, parent: NodeId, id: NodeId, d: NodeData)
    requires
        a.wf(),
        b.wf(),
        a.added(b, parent, id, d),
    ensures
        !a.live(id),
{
    if a.free.len() > 0 {
        assert(a.free[a.free.len() - 1] == id);
        assert(a.free.contains(id));
    } else if a.live(id) {
        assert(a.node_ok(id));
    }
}

/// The first addition hangs a leaf below its parent.
proof fn lemma_hangs_first(a: State, b: State, parent: NodeId, id: NodeId, d: NodeData)
    requires
        a.wf(),
        b.wf(),
        a.live(parent),
        a.added(b, parent, id, d),
    ensures
        hangs(a, b, parent, id),
{
    lemma_new_slot(a, b, parent, id, d);
    assert(b.live(id));
    assert(b.kids[id] =~= Seq::<NodeId>::empty());
    assert forall|x: NodeId| b.within(x, id) <==> x == id by {
        b.lemma_within(x, id);
    }
}

/// A further addition below `id` keeps the subtree of `id` the only difference.
proof fn lemma_hangs_next(a: State, s: State, t: State, parent: NodeId, id: NodeId, step: Addition)
    requires
        s.wf(),
        t.wf(),
        hangs(a, s, parent, id),
        s.within(step.parent, id),
        s.added(t, step.parent, step.id, step.data),
    ensures
        hangs(a, t, parent, id),
{
    let p = step.parent;
    let n = step.id;
    lemma_new_slot(s, t, p, n, step.data);
    assert(!a.live(p));
    assert forall|x: NodeId| s.live(x) implies t.within(x, id) == #[trigger] s.within(x, id) by {
        assert(t.depth[x] == s.depth[x]);
        assert(t.depth[id] == s.depth[id]);
        lemma_same_up(s, t, p, n, step.data, x, (s.depth[x] - s.depth[id]) as nat);
    }
    assert(t.live(p));
    assert(t.node_ok(p));
    assert(t.kids[p][0] == n);
    assert(t.child_ok(p, 0));
    t.lemma_within_parent(n, p, id);
    assert(s.within(p, id));
    assert(t.within(p, id));
    assert(t.within(n, id));
    assert forall|x: NodeId| #[trigger] a.live(x) implies t.live(x) && !t.within(x, id) by {
        assert(s.live(x));
        assert(!s.within(x, id));
    }
    assert forall|x: NodeId| #[trigger] t.live(x) implies a.live(x) || t.within(x, id) by {
        if x != n {
            assert(s.live(x));
            assert(a.live(x) || s.within(x, id));
        }
    }
    assert forall|x: NodeId| #[trigger] a.live(x) implies t.depth[x] == a.depth[x]
        && t.nodes[x as int]@ == a.nodes[x as int]@ && (x != parent ==> t.kids[x]
        == a.kids[x]) by {
        assert(s.live(x));
        assert(x != p && x != n);
    }
}

/// States that hold the same nodes in the same places have the same totals.
proof fn lemma_same_totals(a: State, c: State, x: NodeId, m: Measure)
    requires
        a.links(),
        c.links(),
        c.kids == a.kids,
        c.depth == a.depth,
        forall|y: NodeId| #[trigger] a.live(y) ==> c.nodes[y as int]@ == a.nodes[y as int]@,
        a.live(x),
    ensures
        total_at(c, x, m) == total_at(a, x, m),
    decreases a.bound - a.depth[x],
{
    assert(a.node_ok(x));
    assert(c.live(x));
    lemma_at(a, x, m);
    lemma_at(c, x, m);
    let ks = a.kids[x];
    assert forall|i: int| 0 <= i < ks.len() implies total_at(c, #[trigger] ks[i], m) == total_at(
        a,
        ks[i],
        m,
    ) + if i == -1 {
        0int
    } else {
        0
    } by {
        assert(a.child_ok(x, i));
        assert(a.node_ok(ks[i]));
        lemma_same_totals(a, c, ks[i], m);
    }
    lemma_shift(a, c, ks, -1, 0, m);
}

/// Removing a subtree undoes all the additions that it was built by: the tree
/// has the nodes that it had before, with the same data, parents, children and
/// aggregates.
pub proof fn law_remove_undoes_growth(states: Seq<State>, steps: Seq<Addition>, c: State)
    requires
        grows(states, steps),
        c.wf(),
        states.last().removed(c, steps[0].id),
    ensures
        c.root == states[0].root,
        c.depth == states[0].depth,
        c.kids == states[0].kids,
        c.nodes.len() - c.free.len() == states[0].nodes.len() - states[0].free.len(),
        forall|x: NodeId|
            #![trigger states[0].live(x)]
            states[0].live(x) ==> c.nodes[x as int]@ == states[0].nodes[x as int]@
                && c.nodes[x as int].parent == states[0].nodes[x as int].parent,
        forall|x: NodeId, m: Measure|
            states[0].live(x) ==> #[trigger] c.nodes[x as int].agg(m)
                == states[0].nodes[x as int].agg(m),
{
    let a = states[0];
    let parent = steps[0].parent;
    let id = steps[0].id;
    lemma_hangs_all(states, steps, steps.len() as int);
    let s = states.last();
    assert(s == states[steps.len() as int]);
    assert(a.node_ok(parent));
    assert(s.live(parent));
    assert(s.node_ok(parent));
    assert(s.kids[parent][0] == id);
    assert(s.child_ok(parent, 0));
    let ks = s.kids[parent];
    assert(ks.index_of(id) == 0) by {
        let i = ks.index_of(id);
        assert(ks.contains(id));
        assert(0 <= i < ks.len() && ks[i] == id);
    }
    assert(ks.remove(0) =~= a.kids[parent]);
    assert forall|x: NodeId| c.live(x) <==> #[trigger] a.live(x) by {
        if c.live(x) {
            assert(s.live(x));
        }
    }
    assert(c.depth =~= a.depth) by {
        assert forall|x: NodeId| c.depth.dom().contains(x) <==> #[trigger] a.depth.dom().contains(
            x,
        ) by {
            assert(c.live(x) <==> a.live(x));
        }
        assert forall|x: NodeId| #[trigger] a.depth.dom().contains(x) implies c.depth[x]
            == a.depth[x] by {
            assert(a.live(x));
        }
    }
    assert(c.kids =~= a.kids) by {
        assert forall|x: NodeId| #[trigger] a.kids.dom().contains(x) implies c.kids[x]
            == a.kids[x] by {
            assert(a.live(x));
        }
    }
    a.lemma_counts();
    c.lemma_counts();
    assert forall|x: NodeId| #[trigger] a.live(x) implies c.nodes[x as int]@ == a.nodes[x as int]@
        && c.nodes[x as int].parent == a.nodes[x as int].parent by {
        assert(c.live(x));
        assert(s.live(x));
        assert(a.node_ok(x));
        assert(c.node_ok(x));
        if let Some(q) = a.nodes[x as int].parent {
            let i = a.kids[q].index_of(x);
            assert(a.kids[q][i] == x);
            assert(c.live(q));
            assert(c.node_ok(q));
            assert(c.child_ok(q, i));
        }
    }
    assert forall|x: NodeId, m: Measure| a.live(x) implies #[trigger] c.nodes[x as int].agg(m)
        == a.nodes[x as int].agg(m) by {
        lemma_same_totals(a, c, x, m);
        a.law_aggregates(x);
        c.law_aggregates(x);
    }
}

/// After each addition the subtree is the only difference.
proof fn lemma_hangs_all(states: Seq<State>, steps: Seq<Addition>, n: int)
    requires
        grows(states, steps),
        1 <= n <= steps.len(),
    ensures
        hangs(states[0], states[n], steps[0].parent, steps[0].id),
    decreases n,
{
    if n == 1 {
        assert(grows_at(states, steps, 0));
        lemma_hangs_first(
            states[0],
            states[1],
            steps[0].parent,
            steps[0].id,
            steps[0].data,
        );
    } else {
        lemma_hangs_all(states, steps, n - 1);
        assert(grows_at(states, steps, n - 1));
        lemma_hangs_next(
            states[0],
            states[n - 1],
            states[n],
            steps[0].parent,
            steps[0].id,
            steps[n - 1],
        );
    }
}

} // verus!
