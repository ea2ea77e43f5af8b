//! Flat-arena tree with parent and sibling links and incrementally kept sums.

use vstd::prelude::*;

use crate::model::State;
use crate::node::{Measure, Node, NodeData, NodeFlags, NodeParams, Tag};
use crate::{model, node, text, FileTime, NodeId};

verus! {

/// The links of a tree as lists, for proofs only.
pub struct Shape {
    pub kids: Map<NodeId, Seq<NodeId>>,
    pub depth: Map<NodeId, nat>,
    pub bound: nat,
}

/// Flat-arena tree. Removed subtrees leave their slots on a free list, from
/// which later nodes are taken.
pub struct Tree {
    arena: Vec<Node>,
    free: Vec<NodeId>,
    root: Option<NodeId>,
    shape: Ghost<Shape>,
}

impl View for Tree {
    type V = State;

    closed spec fn view(&self) -> State {
        State {
            nodes: self.arena@,
            free: self.free@,
            root: self.root,
            kids: self.shape@.kids,
            depth: self.shape@.depth,
            bound: self.shape@.bound,
        }
    }
}

/// Amounts by which aggregates change, as 64-bit wrapping counters.
#[derive(Clone, Copy)]
struct Delta {
    logical: u64,
    allocated: u64,
    files: u64,
    dirs: u64,
}

impl Delta {
    spec fn amount(self, m: Measure) -> u64 {
        match m {
            Measure::Logical => self.logical,
            Measure::Allocated => self.allocated,
            Measure::Files => self.files,
            Measure::Dirs => self.dirs,
        }
    }

    fn negated(self) -> (r: Self)
        ensures
            forall|m: Measure| #[trigger] r.amount(m) == node::wrap64(-self.amount(m)),
    {
        let r = Delta {
            logical: 0u64.wrapping_sub(self.logical),
            allocated: 0u64.wrapping_sub(self.allocated),
            files: 0u64.wrapping_sub(self.files),
            dirs: 0u64.wrapping_sub(self.dirs),
        };
        proof {
            assert forall|m: Measure| #[trigger] r.amount(m) == node::wrap64(-self.amount(m)) by {
                match m {
                    Measure::Logical => {},
                    Measure::Allocated => {},
                    Measure::Files => {},
                    Measure::Dirs => {},
                }
            }
        }
        r
    }
}

impl State {
    /// The aggregate of `p` becomes right once `d` is added to it.
    spec fn owes(self, p: NodeId, m: Measure, d: int) -> bool {
        node::wrap64(self.nodes[p as int].agg(m) + d) == node::wrap64(
            node::own_amount(self.nodes[p as int]@, m) + model::agg_sum(self.nodes, self.kids[p], m),
        )
    }
}

proof fn lemma_sum_same(a: Seq<Node>, b: Seq<Node>, ids: Seq<NodeId>, m: Measure)
    requires
        forall|i: int|
            0 <= i < ids.len() ==> a[(#[trigger] ids[i]) as int].agg(m) == b[ids[i] as int].agg(m),
    ensures
        model::agg_sum(a, ids, m) == model::agg_sum(b, ids, m),
    decreases ids.len(),
{
    if ids.len() > 0 {
        let init = ids.drop_last();
        assert forall|i: int| 0 <= i < init.len() implies a[(#[trigger] init[i]) as int].agg(m)
            == b[init[i] as int].agg(m) by {
            assert(init[i] == ids[i]);
        }
        lemma_sum_same(a, b, init, m);
        assert(ids[ids.len() - 1] == ids.last());
    }
}

proof fn lemma_sum_one(a: Seq<Node>, b: Seq<Node>, ids: Seq<NodeId>, k: int, m: Measure)
    requires
        0 <= k < ids.len(),
        ids.no_duplicates(),
        forall|i: int|
            0 <= i < ids.len() && i != k ==> a[(#[trigger] ids[i]) as int].agg(m)
                == b[ids[i] as int].agg(m),
    ensures
        model::agg_sum(b, ids, m) == model::agg_sum(a, ids, m) - a[ids[k] as int].agg(m) + b[ids[k] as int].agg(
            m,
        ),
    decreases ids.len(),
{
    let init = ids.drop_last();
    assert forall|i: int| 0 <= i < init.len() && i != k implies a[(
    #[trigger] init[i]) as int].agg(m) == b[init[i] as int].agg(m) by {
        assert(init[i] == ids[i]);
    }
    if k == ids.len() - 1 {
        assert forall|i: int| 0 <= i < init.len() implies a[(#[trigger] init[i]) as int].agg(m)
            == b[init[i] as int].agg(m) by {
            assert(init[i] == ids[i]);
        }
        lemma_sum_same(a, b, init, m);
    } else {
        lemma_sum_one(a, b, init, k, m);
        assert(ids[ids.len() - 1] == ids.last());
    }
}

proof fn lemma_sum_front(nodes: Seq<Node>, x: NodeId, ids: Seq<NodeId>, m: Measure)
    ensures
        model::agg_sum(nodes, seq![x] + ids, m) == nodes[x as int].agg(m) + model::agg_sum(nodes, ids, m),
    decreases ids.len(),
{
    let all = seq![x] + ids;
    if ids.len() == 0 {
        assert(all.drop_last() =~= Seq::<NodeId>::empty());
        assert(model::agg_sum(nodes, all.drop_last(), m) == 0);
    } else {
        assert(all.drop_last() =~= seq![x] + ids.drop_last());
        lemma_sum_front(nodes, x, ids.drop_last(), m);
    }
}

proof fn lemma_sum_remove(nodes: Seq<Node>, ids: Seq<NodeId>, k: int, m: Measure)
    requires
        0 <= k < ids.len(),
    ensures
        model::agg_sum(nodes, ids.remove(k), m) == model::agg_sum(nodes, ids, m) - nodes[ids[k] as int].agg(m),
    decreases ids.len(),
{
    if k == ids.len() - 1 {
        assert(ids.remove(k) =~= ids.drop_last());
    } else {
        assert(ids.remove(k).drop_last() =~= ids.drop_last().remove(k));
        assert(ids.remove(k).last() == ids.last());
        lemma_sum_remove(nodes, ids.drop_last(), k, m);
    }
}

proof fn lemma_wrap_shift(agg: int, own: int, before: int, x: int, d: int)
    requires
        agg == node::wrap64(own + before),
    ensures
        node::wrap64(agg + d) == node::wrap64(own + (before - x + node::wrap64(x + d))),
{
}

/// Where `x` alone differs, the sums over sibling lists without `x` stay.
proof fn lemma_sum_elsewhere(a: State, b: State, x: NodeId, p: NodeId, m: Measure)
    requires
        a.links(),
        a.live(p),
        a.kids == b.kids,
        a.nodes.len() == b.nodes.len(),
        a.nodes[x as int].parent != Some(p),
        forall|i: int| 0 <= i < a.nodes.len() && i != x ==> #[trigger] b.nodes[i] == a.nodes[i],
    ensures
        model::agg_sum(a.nodes, a.kids[p], m) == model::agg_sum(b.nodes, b.kids[p], m),
{
    assert(a.node_ok(p));
    assert forall|i: int| 0 <= i < a.kids[p].len() implies a.nodes[(
    #[trigger] a.kids[p][i]) as int].agg(m) == b.nodes[a.kids[p][i] as int].agg(m) by {
        assert(a.child_ok(p, i));
        assert(a.node_ok(a.kids[p][i]));
    }
    lemma_sum_same(a.nodes, b.nodes, a.kids[p], m);
}

/// Where the child `x` of `q` alone differs, the sum over the children of `q`
/// changes by as much.
proof fn lemma_sum_at_parent(a: State, b: State, x: NodeId, q: NodeId, m: Measure)
    requires
        a.links(),
        a.live(x),
        a.live(q),
        a.kids == b.kids,
        a.nodes.len() == b.nodes.len(),
        a.nodes[x as int].parent == Some(q),
        forall|i: int| 0 <= i < a.nodes.len() && i != x ==> #[trigger] b.nodes[i] == a.nodes[i],
    ensures
        model::agg_sum(b.nodes, b.kids[q], m) == model::agg_sum(a.nodes, a.kids[q], m) - a.nodes[x as int].agg(m)
            + b.nodes[x as int].agg(m),
{
    assert(a.node_ok(x));
    assert(a.node_ok(q));
    let k = choose|k: int| 0 <= k < a.kids[q].len() && a.kids[q][k] == x;
    assert forall|i: int| 0 <= i < a.kids[q].len() && i != k implies a.nodes[(
    #[trigger] a.kids[q][i]) as int].agg(m) == b.nodes[a.kids[q][i] as int].agg(m) by {
        assert(a.child_ok(q, i));
        assert(a.node_ok(a.kids[q][i]));
    }
    lemma_sum_one(a.nodes, b.nodes, a.kids[q], k, m);
}

/// One step of carrying a change upwards: `x` gets its aggregates right and
/// its parent, if any, then owes the same amounts.
proof fn lemma_step(a: State, b: State, x: NodeId, d: Delta)
    requires
        a.links(),
        a.live(x),
        a.same_but_aggs(b),
        forall|i: int| 0 <= i < a.nodes.len() && i != x ==> #[trigger] b.nodes[i] == a.nodes[i],
        forall|m: Measure| #[trigger]
            b.nodes[x as int].agg(m) == node::wrap64(a.nodes[x as int].agg(m) + d.amount(m)),
        forall|m: Measure| #[trigger] a.owes(x, m, d.amount(m) as int),
        forall|p: NodeId, m: Measure| a.live(p) && p != x ==> #[trigger] a.balanced(p, m),
    ensures
        b.links(),
        forall|m: Measure| #[trigger] b.balanced(x, m),
        forall|p: NodeId, m: Measure|
            a.live(p) && p != x && a.nodes[x as int].parent != Some(p) ==> #[trigger] b.balanced(
                p,
                m,
            ),
        a.nodes[x as int].parent matches Some(q) ==> {
            &&& a.live(q)
            &&& q != x
            &&& a.depth[q] < a.depth[x]
            &&& forall|m: Measure| #[trigger] b.owes(q, m, d.amount(m) as int)
        },
{
    lemma_links_frame(a, b);
    assert(a.node_ok(x));
    assert(a.nodes[x as int].same_but_agg(b.nodes[x as int]));
    if let Some(q) = a.nodes[x as int].parent {
        a.lemma_parent(x, q);
        assert forall|m: Measure| #[trigger] b.owes(q, m, d.amount(m) as int) by {
            assert(a.node_ok(q));
            assert(a.balanced(q, m));
            lemma_sum_at_parent(a, b, x, q, m);
            lemma_wrap_shift(
                a.nodes[q as int].agg(m) as int,
                node::own_amount(a.nodes[q as int]@, m),
                model::agg_sum(a.nodes, a.kids[q], m),
                a.nodes[x as int].agg(m) as int,
                d.amount(m) as int,
            );
            assert(b.nodes[x as int].agg(m) == node::wrap64(a.nodes[x as int].agg(m) + d.amount(m)));
        }
    }
    assert forall|m: Measure| #[trigger] b.balanced(x, m) by {
        assert(a.owes(x, m, d.amount(m) as int));
        lemma_sum_elsewhere(a, b, x, x, m);
        assert(b.nodes[x as int].agg(m) == node::wrap64(a.nodes[x as int].agg(m) + d.amount(m)));
    }
    assert forall|p: NodeId, m: Measure|
        a.live(p) && p != x && a.nodes[x as int].parent != Some(p) implies #[trigger] b.balanced(
        p,
        m,
    ) by {
        assert(a.node_ok(p));
        assert(a.balanced(p, m));
        lemma_sum_elsewhere(a, b, x, p, m);
    }
}

/// Links do not depend on aggregates.
proof fn lemma_links_frame(a: State, b: State)
    requires
        a.links(),
        a.same_but_aggs(b),
    ensures
        b.links(),
{
    assert forall|p: NodeId| #[trigger] b.live(p) implies b.node_ok(p) by {
        assert(a.live(p));
        assert(a.node_ok(p));
        assert(a.nodes[p as int].same_but_agg(b.nodes[p as int]));
        assert forall|i: int| 0 <= i < b.kids[p].len() implies #[trigger] b.child_ok(p, i) by {
            assert(a.child_ok(p, i));
            let c = a.kids[p][i];
            assert(a.node_ok(c));
            assert(a.nodes[c as int].same_but_agg(b.nodes[c as int]));
        }
    }
    if let Some(r) = a.root {
        assert(a.node_ok(r));
        assert(a.nodes[r as int].same_but_agg(b.nodes[r as int]));
    } else {
        assert forall|p: NodeId| !#[trigger] b.live(p) by {
            assert(!a.live(p));
        }
    }
}

/// Slots do not depend on aggregates.
proof fn lemma_slots_frame(a: State, b: State)
    requires
        a.slots(),
        a.free == b.free,
        a.depth == b.depth,
        a.nodes.len() == b.nodes.len(),
    ensures
        b.slots(),
{
    assert forall|id: NodeId| #[trigger] b.live(id) <==> id < b.nodes.len() && !b.free.contains(
        id,
    ) by {
        assert(a.live(id) <==> id < a.nodes.len() && !a.free.contains(id));
    }
    assert forall|i: int| 0 <= i < b.free.len() implies (#[trigger] b.free[i])
        < b.nodes.len() by {
        assert(a.free[i] < a.nodes.len());
    }
}

/// Links and slots after a node has been put in front of its siblings.
proof fn lemma_add_links(a: State, b: State, parent: NodeId, id: NodeId)
    requires
        a.links(),
        a.slots(),
        a.live(parent),
        a.has_room(),
        id == a.next_slot(),
        b.root == a.root,
        b.free == if a.free.len() > 0 {
            a.free.drop_last()
        } else {
            a.free
        },
        b.nodes.len() == if a.free.len() > 0 {
            a.nodes.len()
        } else {
            a.nodes.len() + 1
        },
        b.kids == a.kids.insert(parent, seq![id] + a.kids[parent]).insert(id, Seq::empty()),
        b.depth == a.depth.insert(id, a.depth[parent] + 1),
        b.bound == if a.bound > a.depth[parent] + 2 {
            a.bound
        } else {
            a.depth[parent] + 2
        },
        b.nodes[id as int].parent == Some(parent),
        b.nodes[id as int].first_child is None,
        b.nodes[id as int].next_sibling == a.nodes[parent as int].first_child,
        b.nodes[parent as int].first_child == Some(id),
        b.nodes[parent as int].parent == a.nodes[parent as int].parent,
        b.nodes[parent as int].next_sibling == a.nodes[parent as int].next_sibling,
        forall|i: int|
            0 <= i < a.nodes.len() && i != parent && i != id ==> #[trigger] b.nodes[i]
                == a.nodes[i],
    ensures
        !a.live(id),
        id != parent,
        b.links(),
        b.slots(),
{
    if a.free.len() > 0 {
        assert(a.free.contains(id)) by {
            assert(a.free[a.free.len() - 1] == id);
        }
    }
    assert(!a.live(id));
    assert(a.node_ok(parent));
    let ks = a.kids[parent];
    assert(!ks.contains(id)) by {
        if ks.contains(id) {
            let k = choose|k: int| 0 <= k < ks.len() && ks[k] == id;
            assert(a.child_ok(parent, k));
        }
    }
    assert(b.kids.dom() =~= b.depth.dom());
    assert forall|p: NodeId| #[trigger] b.live(p) implies b.node_ok(p) by {
        if p == id {
            assert(b.kids[parent][0] == id);
            assert(b.kids[parent].contains(p));
        } else {
            assert(a.live(p));
            assert(a.node_ok(p));
            if p == parent {
                assert(b.kids[p] =~= seq![id] + ks);
                assert(b.kids[p].no_duplicates());
                assert forall|i: int| 0 <= i < b.kids[p].len() implies #[trigger] b.child_ok(
                    p,
                    i,
                ) by {
                    if i > 0 {
                        assert(a.child_ok(p, i - 1));
                        assert(a.node_ok(ks[i - 1]));
                    }
                }
            } else {
                assert(b.kids[p] == a.kids[p]);
                assert forall|i: int| 0 <= i < b.kids[p].len() implies #[trigger] b.child_ok(
                    p,
                    i,
                ) by {
                    assert(a.child_ok(p, i));
                    assert(a.node_ok(a.kids[p][i]));
                }
            }
            if let Some(q) = a.nodes[p as int].parent {
                let k = choose|k: int| 0 <= k < a.kids[q].len() && a.kids[q][k] == p;
                if q == parent {
                    assert(b.kids[q][k + 1] == p);
                } else {
                    assert(b.kids[q][k] == p);
                }
                assert(b.kids[q].contains(p));
            }
        }
    }
    match a.root {
        Some(r) => {
            assert(a.node_ok(r));
        },
        None => {
            assert(!a.live(parent));
        },
    }
    assert forall|x: NodeId| #[trigger] b.live(x) <==> x < b.nodes.len() && !b.free.contains(
        x,
    ) by {
        assert(a.live(x) <==> x < a.nodes.len() && !a.free.contains(x));
        if a.free.len() > 0 {
            if b.free.contains(x) {
                let k = choose|k: int| 0 <= k < b.free.len() && b.free[k] == x;
                assert(a.free[k] == x);
            }
            if a.free.contains(x) && x != id {
                let k = choose|k: int| 0 <= k < a.free.len() && a.free[k] == x;
                assert(b.free[k] == x);
            }
        } else if a.free.contains(x) {
            let k = choose|k: int| 0 <= k < a.free.len() && a.free[k] == x;
        }
    }
    assert forall|i: int| 0 <= i < b.free.len() implies (#[trigger] b.free[i])
        < b.nodes.len() by {
        assert(b.free[i] == a.free[i]);
    }
}

proof fn lemma_wrap_resize(agg: int, own: int, new_own: int, sum: int, d: int)
    requires
        agg == node::wrap64(own + sum),
        node::wrap64(d) == node::wrap64(new_own - own),
    ensures
        node::wrap64(agg + d) == node::wrap64(new_own + sum),
{
}

/// After a node's own sizes have changed, only it owes the difference.
proof fn lemma_resize(a: State, b: State, id: NodeId, d: Delta)
    requires
        a.wf(),
        a.live(id),
        b == (State { nodes: b.nodes, ..a }),
        b.nodes.len() == a.nodes.len(),
        forall|i: int| 0 <= i < a.nodes.len() && i != id ==> #[trigger] b.nodes[i] == a.nodes[i],
        b.nodes[id as int] == (Node {
            logical_size: b.nodes[id as int].logical_size,
            allocated_size: b.nodes[id as int].allocated_size,
            ads_size: b.nodes[id as int].ads_size,
            ..a.nodes[id as int]
        }),
        forall|m: Measure|
            node::wrap64(#[trigger] d.amount(m) as int) == node::wrap64(
                node::own_amount(b.nodes[id as int]@, m) - node::own_amount(
                    a.nodes[id as int]@,
                    m,
                ),
            ),
    ensures
        b.links(),
        forall|m: Measure| #[trigger] b.owes(id, m, d.amount(m) as int),
        forall|p: NodeId, m: Measure| b.live(p) && p != id ==> #[trigger] b.balanced(p, m),
{
    lemma_same_links(a, b);
    assert forall|p: NodeId, m: Measure| a.live(p) implies model::agg_sum(a.nodes, a.kids[p], m)
        == #[trigger] model::agg_sum(b.nodes, b.kids[p], m) by {
        assert(a.node_ok(p));
        assert forall|i: int| 0 <= i < a.kids[p].len() implies a.nodes[(
        #[trigger] a.kids[p][i]) as int].agg(m) == b.nodes[a.kids[p][i] as int].agg(m) by {
            assert(a.child_ok(p, i));
            assert(a.node_ok(a.kids[p][i]));
        }
        lemma_sum_same(a.nodes, b.nodes, a.kids[p], m);
    }
    assert forall|m: Measure| #[trigger] b.owes(id, m, d.amount(m) as int) by {
        assert(a.balanced(id, m));
        assert(model::agg_sum(a.nodes, a.kids[id], m) == model::agg_sum(b.nodes, b.kids[id], m));
        lemma_wrap_resize(
            a.nodes[id as int].agg(m) as int,
            node::own_amount(a.nodes[id as int]@, m),
            node::own_amount(b.nodes[id as int]@, m),
            model::agg_sum(a.nodes, a.kids[id], m),
            d.amount(m) as int,
        );
    }
    assert forall|p: NodeId, m: Measure| b.live(p) && p != id implies #[trigger] b.balanced(
        p,
        m,
    ) by {
        assert(a.live(p));
        assert(a.node_ok(p));
        assert(a.balanced(p, m));
        assert(model::agg_sum(a.nodes, a.kids[p], m) == model::agg_sum(b.nodes, b.kids[p], m));
    }
}

/// A node may be given other data through `node_mut` as long as its links, its
/// aggregates and what it contributes to them stay as they are.
pub proof fn law_node_mut(a: State, id: NodeId, n: Node)
    requires
        a.wf(),
        a.live(id),
        n.parent == a.nodes[id as int].parent,
        n.first_child == a.nodes[id as int].first_child,
        n.next_sibling == a.nodes[id as int].next_sibling,
        forall|m: Measure| #[trigger] n.agg(m) == a.nodes[id as int].agg(m),
        forall|m: Measure| #[trigger]
            node::own_amount(n@, m) == node::own_amount(a.nodes[id as int]@, m),
    ensures
        (State { nodes: a.nodes.update(id as int, n), ..a }).wf(),
{
    let b = State { nodes: a.nodes.update(id as int, n), ..a };
    assert(a.node_ok(id));
    lemma_same_links(a, b);
    lemma_slots_frame(a, b);
    assert forall|p: NodeId, m: Measure| b.live(p) implies #[trigger] b.balanced(p, m) by {
        assert(a.live(p));
        assert(a.node_ok(p));
        assert(a.balanced(p, m));
        assert forall|i: int| 0 <= i < a.kids[p].len() implies (#[trigger] a.kids[p][i])
            < a.nodes.len() by {
            assert(a.child_ok(p, i));
            assert(a.node_ok(a.kids[p][i]));
        }
        lemma_same_sum(a.nodes, b.nodes, a.kids[p], m, id, n);
        assert(node::own_amount(n@, m) == node::own_amount(a.nodes[id as int]@, m));
        assert(n.agg(m) == a.nodes[id as int].agg(m));
    }
}

proof fn lemma_same_sum(
    a: Seq<Node>,
    b: Seq<Node>,
    ids: Seq<NodeId>,
    m: Measure,
    id: NodeId,
    n: Node,
)
    requires
        b == a.update(id as int, n),
        id < a.len(),
        n.agg(m) == a[id as int].agg(m),
        forall|i: int| 0 <= i < ids.len() ==> (#[trigger] ids[i]) < a.len(),
    ensures
        model::agg_sum(b, ids, m) == model::agg_sum(a, ids, m),
    decreases ids.len(),
{
    if ids.len() > 0 {
        let rest = ids.drop_last();
        assert forall|i: int| 0 <= i < rest.len() implies (#[trigger] rest[i]) < a.len() by {
            assert(rest[i] == ids[i]);
        }
        lemma_same_sum(a, b, rest, m, id, n);
        assert(ids[ids.len() - 1] < a.len());
    }
}

/// Links stay where every node keeps its own.
proof fn lemma_same_links(a: State, b: State)
    requires
        a.links(),
        b == (State { nodes: b.nodes, ..a }),
        b.nodes.len() == a.nodes.len(),
        forall|i: int|
            0 <= i < a.nodes.len() ==> {
                &&& (#[trigger] b.nodes[i]).parent == a.nodes[i].parent
                &&& b.nodes[i].first_child == a.nodes[i].first_child
                &&& b.nodes[i].next_sibling == a.nodes[i].next_sibling
            },
    ensures
        b.links(),
{
    assert forall|p: NodeId| #[trigger] b.live(p) implies b.node_ok(p) by {
        assert(a.live(p));
        assert(a.node_ok(p));
        assert forall|i: int| 0 <= i < b.kids[p].len() implies #[trigger] b.child_ok(p, i) by {
            assert(a.child_ok(p, i));
            assert(a.node_ok(a.kids[p][i]));
        }
    }
    if let Some(r) = a.root {
        assert(a.node_ok(r));
    } else {
        assert forall|p: NodeId| !#[trigger] b.live(p) by {
            assert(!a.live(p));
        }
    }
}

/// Slots after the subtree of `id` has moved to the free list.
proof fn lemma_cut_slots(a: State, b: State, id: NodeId)
    requires
        a.links(),
        a.slots(),
        a.live(id),
        b.nodes.len() == a.nodes.len(),
        b.free == a.free + model::stack_order_one(a.rose(id)),
        b.depth == a.depth.remove_keys(Set::new(|x: NodeId| a.within(x, id))),
        model::stack_order_one(a.rose(id)).no_duplicates(),
        forall|y: NodeId| #[trigger]
            model::stack_order_one(a.rose(id)).contains(y) <==> a.within(y, id),
    ensures
        b.slots(),
{
    let cut = model::stack_order_one(a.rose(id));
    assert forall|x: NodeId| #[trigger] b.free.contains(x) <==> a.free.contains(x) || a.within(
        x,
        id,
    ) by {
        if b.free.contains(x) {
            let k = choose|k: int| 0 <= k < b.free.len() && b.free[k] == x;
            if k < a.free.len() {
                assert(a.free[k] == x);
            } else {
                assert(cut[k - a.free.len()] == x);
                assert(cut.contains(x));
            }
        }
        if a.free.contains(x) {
            let k = choose|k: int| 0 <= k < a.free.len() && a.free[k] == x;
            assert(b.free[k] == x);
        }
        if a.within(x, id) {
            assert(cut.contains(x));
            let k = choose|k: int| 0 <= k < cut.len() && cut[k] == x;
            assert(b.free[k + a.free.len()] == x);
        }
    }
    assert forall|x: NodeId| #[trigger] b.live(x) <==> x < b.nodes.len() && !b.free.contains(
        x,
    ) by {
        assert(a.live(x) <==> x < a.nodes.len() && !a.free.contains(x));
    }
    assert forall|i: int| 0 <= i < b.free.len() implies (#[trigger] b.free[i])
        < b.nodes.len() by {
        assert(b.free.contains(b.free[i]));
        if i < a.free.len() {
            assert(b.free[i] == a.free[i]);
        } else {
            assert(cut[i - a.free.len()] == b.free[i]);
            assert(cut.contains(b.free[i]));
            assert(a.live(b.free[i]));
        }
    }
    assert forall|i: int, j: int| 0 <= i < j < b.free.len() implies b.free[i] != b.free[j] by {
        if i < a.free.len() {
            assert(a.free[i] == b.free[i]);
            assert(a.free.contains(b.free[i]));
            if j >= a.free.len() {
                assert(cut[j - a.free.len()] == b.free[j]);
                assert(cut.contains(b.free[j]));
                assert(a.live(b.free[j]));
            } else {
                assert(a.free[j] == b.free[j]);
            }
        } else {
            assert(cut[i - a.free.len()] == b.free[i]);
            assert(cut[j - a.free.len()] == b.free[j]);
        }
    }
}

/// Links and sums do not depend on the free list.
proof fn lemma_frame_free(a: State, b: State)
    requires
        a.links(),
        a.sums(),
        b == (State { free: b.free, ..a }),
    ensures
        b.links(),
        b.sums(),
{
    assert forall|p: NodeId| #[trigger] b.live(p) implies b.node_ok(p) by {
        assert(a.live(p));
        assert(a.node_ok(p));
        assert forall|i: int| 0 <= i < b.kids[p].len() implies #[trigger] b.child_ok(p, i) by {
            assert(a.child_ok(p, i));
        }
    }
    if a.root is None {
        assert forall|p: NodeId| !#[trigger] b.live(p) by {
            assert(!a.live(p));
        }
    }
    assert forall|p: NodeId, m: Measure| b.live(p) implies #[trigger] b.balanced(p, m) by {
        assert(a.live(p));
        assert(a.balanced(p, m));
    }
}

/// Links after the subtree of `id`, child `k` of `q`, has been cut off.
proof fn lemma_cut_links(a: State, b: State, id: NodeId, q: NodeId, k: int)
    requires
        a.links(),
        a.live(id),
        a.nodes[id as int].parent == Some(q),
        0 <= k < a.kids[q].len(),
        a.kids[q][k] == id,
        b.root == a.root,
        b.bound == a.bound,
        b.nodes.len() == a.nodes.len(),
        b.depth == a.depth.remove_keys(Set::new(|x: NodeId| a.within(x, id))),
        b.kids == a.kids.remove_keys(Set::new(|x: NodeId| a.within(x, id))).insert(
            q,
            a.kids[q].remove(k),
        ),
        forall|i: int|
            0 <= i < a.nodes.len() ==> (#[trigger] b.nodes[i]).parent == a.nodes[i].parent,
        forall|i: int|
            0 <= i < a.nodes.len() && !(i == q && k == 0) ==> (#[trigger] b.nodes[i]).first_child
                == a.nodes[i].first_child,
        forall|i: int|
            0 <= i < a.nodes.len() && !(k > 0 && i == a.kids[q][k - 1]) ==> (
            #[trigger] b.nodes[i]).next_sibling == a.nodes[i].next_sibling,
        k == 0 ==> b.nodes[q as int].first_child == a.nodes[id as int].next_sibling,
        k > 0 ==> b.nodes[a.kids[q][k - 1] as int].next_sibling
            == a.nodes[id as int].next_sibling,
    ensures
        b.links(),
        b.live(q),
{
    let gone = Set::new(|x: NodeId| a.within(x, id));
    a.lemma_parent(id, q);
    assert(a.node_ok(id));
    assert(a.node_ok(q));
    let ks = a.kids[q];
    assert(a.child_ok(q, k));
    assert(!a.within(q, id));
    assert(b.kids.dom() =~= b.depth.dom());
    assert forall|p: NodeId| #[trigger] b.live(p) implies b.node_ok(p) by {
        assert(a.live(p) && !a.within(p, id));
        assert(a.node_ok(p));
        assert(p != id);
        assert(b.nodes[p as int].parent == a.nodes[p as int].parent);
        if let Some(r) = a.nodes[p as int].parent {
            a.lemma_parent(p, r);
            a.lemma_within_parent(p, r, id);
            assert(b.live(r));
            let i = choose|i: int| 0 <= i < a.kids[r].len() && a.kids[r][i] == p;
            if r == q {
                if i < k {
                    assert(b.kids[r][i] == p);
                } else {
                    assert(b.kids[r][i - 1] == p);
                }
            } else {
                assert(b.kids[r][i] == p);
            }
            assert(b.kids[r].contains(p));
        } else {
            if k > 0 {
                assert(a.child_ok(q, k - 1));
            }
        }
        if p == q {
            let ns = ks.remove(k);
            assert(b.kids[p] == ns);
            assert(ns.no_duplicates());
            assert forall|i: int| 0 <= i < ns.len() implies #[trigger] b.child_ok(p, i) by {
                let j = if i < k {
                    i
                } else {
                    i + 1
                };
                assert(ns[i] == ks[j]);
                assert(a.child_ok(q, j));
                let c = ks[j];
                assert(a.node_ok(c));
                assert(c != id);
                a.lemma_within_parent(c, q, id);
                assert(b.live(c));
                if i == k - 1 {
                    assert(b.nodes[c as int].next_sibling == model::link_at(ks, k + 1));
                    assert(model::link_at(ks, k + 1) == model::link_at(ns, i + 1));
                } else {
                    assert(k > 0 ==> c != ks[k - 1]);
                    assert(b.nodes[c as int].next_sibling == model::link_at(ks, j + 1));
                }
            }
            if k == 0 {
                assert(b.nodes[q as int].first_child == model::link_at(ns, 0));
            }
        } else {
            assert(b.kids[p] == a.kids[p]);
            assert forall|i: int| 0 <= i < b.kids[p].len() implies #[trigger] b.child_ok(p, i) by {
                assert(a.child_ok(p, i));
                let c = a.kids[p][i];
                assert(a.node_ok(c));
                assert(c != id);
                a.lemma_within_parent(c, p, id);
                assert(b.live(c));
                if k > 0 {
                    assert(a.child_ok(q, k - 1));
                }
            }
        }
    }
    match a.root {
        Some(r) => {
            assert(a.node_ok(r));
            if a.within(r, id) {
                assert(r == id);
            }
            assert(b.live(r));
        },
        None => {
            assert(!a.live(id));
        },
    }
}

/// After a subtree has been cut off, only its former parent owes its amounts.
proof fn lemma_cut_owes(a: State, b: State, id: NodeId, q: NodeId, k: int, d: Delta)
    requires
        a.wf(),
        a.live(id),
        a.nodes[id as int].parent == Some(q),
        0 <= k < a.kids[q].len(),
        a.kids[q][k] == id,
        b.nodes.len() == a.nodes.len(),
        b.depth == a.depth.remove_keys(Set::new(|x: NodeId| a.within(x, id))),
        b.kids == a.kids.remove_keys(Set::new(|x: NodeId| a.within(x, id))).insert(
            q,
            a.kids[q].remove(k),
        ),
        forall|i: int| #![trigger b.nodes[i]] 0 <= i < a.nodes.len() ==> b.nodes[i].same_data(a.nodes[i]),
        forall|i: int, m: Measure|
            0 <= i < a.nodes.len() ==> #[trigger] b.nodes[i].agg(m) == a.nodes[i].agg(m),
        forall|m: Measure| #[trigger]
            d.amount(m) == node::wrap64(-a.nodes[id as int].agg(m)),
    ensures
        forall|m: Measure| #[trigger] b.owes(q, m, d.amount(m) as int),
        forall|p: NodeId, m: Measure| b.live(p) && p != q ==> #[trigger] b.balanced(p, m),
{
    a.lemma_parent(id, q);
    assert forall|p: NodeId, m: Measure| a.live(p) implies model::agg_sum(a.nodes, a.kids[p], m)
        == #[trigger] model::agg_sum(b.nodes, a.kids[p], m) by {
        assert(a.node_ok(p));
        assert forall|i: int| 0 <= i < a.kids[p].len() implies a.nodes[(
        #[trigger] a.kids[p][i]) as int].agg(m) == b.nodes[a.kids[p][i] as int].agg(m) by {
            assert(a.child_ok(p, i));
            assert(a.node_ok(a.kids[p][i]));
        }
        lemma_sum_same(a.nodes, b.nodes, a.kids[p], m);
    }
    assert forall|m: Measure| #[trigger] b.owes(q, m, d.amount(m) as int) by {
        assert(a.node_ok(q));
        assert(a.node_ok(id));
        assert(a.balanced(q, m));
        assert(b.nodes[q as int].agg(m) == a.nodes[q as int].agg(m));
        assert(b.nodes[q as int].same_data(a.nodes[q as int]));
        lemma_sum_remove(b.nodes, a.kids[q], k, m);
        assert(b.nodes[id as int].agg(m) == a.nodes[id as int].agg(m));
        assert(model::agg_sum(a.nodes, a.kids[q], m) == model::agg_sum(b.nodes, a.kids[q], m));
        assert(d.amount(m) == node::wrap64(-a.nodes[id as int].agg(m)));
    }
    assert forall|p: NodeId, m: Measure| b.live(p) && p != q implies #[trigger] b.balanced(p, m) by {
        assert(a.live(p));
        assert(a.node_ok(p));
        assert(a.balanced(p, m));
        assert(b.nodes[p as int].agg(m) == a.nodes[p as int].agg(m));
        assert(b.nodes[p as int].same_data(a.nodes[p as int]));
        assert(model::agg_sum(a.nodes, a.kids[p], m) == model::agg_sum(b.nodes, a.kids[p], m));
    }
}

/// After a node has been put in front of the children of `parent`, only
/// `parent` owes the new node's amounts.
proof fn lemma_add_owes(a: State, b: State, parent: NodeId, id: NodeId)
    requires
        a.wf(),
        a.live(parent),
        !a.live(id),
        id != parent,
        b.links(),
        b.kids == a.kids.insert(parent, seq![id] + a.kids[parent]).insert(id, Seq::empty()),
        b.depth == a.depth.insert(id, a.depth[parent] + 1),
        b.nodes.len() >= a.nodes.len(),
        b.nodes[parent as int].same_data(a.nodes[parent as int]),
        forall|m: Measure| #[trigger]
            b.nodes[parent as int].agg(m) == a.nodes[parent as int].agg(m),
        forall|m: Measure| #[trigger]
            b.nodes[id as int].agg(m) == node::wrap64(node::own_amount(b.nodes[id as int]@, m)),
        forall|i: int|
            0 <= i < a.nodes.len() && i != parent && i != id ==> #[trigger] b.nodes[i]
                == a.nodes[i],
    ensures
        forall|m: Measure| #[trigger]
            b.owes(parent, m, b.nodes[id as int].agg(m) as int),
        forall|p: NodeId, m: Measure| b.live(p) && p != parent ==> #[trigger] b.balanced(p, m),
{
    assert forall|p: NodeId, m: Measure| a.live(p) implies model::agg_sum(a.nodes, a.kids[p], m)
        == #[trigger] model::agg_sum(b.nodes, a.kids[p], m) by {
        assert(a.node_ok(p));
        assert forall|i: int| 0 <= i < a.kids[p].len() implies a.nodes[(
        #[trigger] a.kids[p][i]) as int].agg(m) == b.nodes[a.kids[p][i] as int].agg(m) by {
            assert(a.child_ok(p, i));
            assert(a.node_ok(a.kids[p][i]));
            if a.kids[p][i] == parent {
                assert(b.nodes[parent as int].agg(m) == a.nodes[parent as int].agg(m));
            }
        }
        lemma_sum_same(a.nodes, b.nodes, a.kids[p], m);
    }
    assert forall|m: Measure| #[trigger]
        b.owes(parent, m, b.nodes[id as int].agg(m) as int) by {
        assert(a.balanced(parent, m));
        assert(b.nodes[parent as int].agg(m) == a.nodes[parent as int].agg(m));
        lemma_sum_front(b.nodes, id, a.kids[parent], m);
        assert(model::agg_sum(a.nodes, a.kids[parent], m) == model::agg_sum(b.nodes, a.kids[parent], m));
    }
    assert forall|p: NodeId, m: Measure| b.live(p) && p != parent implies #[trigger] b.balanced(
        p,
        m,
    ) by {
        if p == id {
            assert(model::agg_sum(b.nodes, b.kids[id], m) == 0);
            assert(b.nodes[id as int].agg(m) == node::wrap64(node::own_amount(b.nodes[id as int]@, m)));
        } else {
            assert(a.live(p));
            assert(a.node_ok(p));
            assert(a.balanced(p, m));
            assert(model::agg_sum(a.nodes, a.kids[p], m) == model::agg_sum(b.nodes, a.kids[p], m));
        }
    }
}

/// The elements of a list from the last to the first.
fn reversed(ids: &Vec<NodeId>) -> (r: Vec<NodeId>)
    ensures
        r@ == ids@.reverse(),
{
    let mut r: Vec<NodeId> = Vec::new();
    let mut i: usize = ids.len();
    while i > 0
        invariant
            i <= ids@.len(),
            r@ == ids@.reverse().take(ids@.len() - i),
        decreases i,
    {
        i = i - 1;
        r.push(ids[i]);
        proof {
            assert(r@ =~= ids@.reverse().take(ids@.len() - i));
        }
    }
    proof {
        assert(ids@.reverse().take(ids@.len() as int) =~= ids@.reverse());
    }
    r
}

/// Walk along a list of siblings.
pub struct Children<'a> {
    arena: &'a Vec<Node>,
    next: Option<NodeId>,
    rest: Ghost<Seq<NodeId>>,
}

impl<'a> Children<'a> {
    /// The siblings that are still to come.
    pub closed spec fn rest(self) -> Seq<NodeId> {
        self.rest@
    }

    /// The links lead along the siblings that are still to come.
    pub closed spec fn wf(self) -> bool {
        &&& self.next == model::link_at(self.rest@, 0)
        &&& forall|i: int|
            0 <= i < self.rest@.len() ==> (#[trigger] self.rest@[i]) < self.arena@.len()
                && self.arena@[self.rest@[i] as int].next_sibling == model::link_at(
                self.rest@,
                i + 1,
            )
    }

    /// The next sibling, if any is left.
    pub fn next(&mut self) -> (r: Option<NodeId>)
        requires
            old(self).wf(),
        ensures
            final(self).wf(),
            r == model::link_at(old(self).rest(), 0),
            final(self).rest() == if old(self).rest().len() > 0 {
                old(self).rest().drop_first()
            } else {
                old(self).rest()
            },
    {
        match self.next {
            Some(id) => {
                let ghost before = self.rest@;
                proof {
                    assert(before[0] == id);
                }
                let i: usize = id as usize;
                self.next = self.arena[i].next_sibling;
                proof {
                    self.rest@ = before.drop_first();
                    assert forall|i: int| 0 <= i < self.rest@.len() implies (
                    #[trigger] self.rest@[i]) < self.arena@.len()
                        && self.arena@[self.rest@[i] as int].next_sibling == model::link_at(
                        self.rest@,
                        i + 1,
                    ) by {
                        assert(before[i + 1] == self.rest@[i]);
                    }
                }
                Some(id)
            },
            None => None,
        }
    }

    /// All siblings that are still to come.
    pub fn collect(self) -> (ids: Vec<NodeId>)
        requires
            self.wf(),
        ensures
            ids@ == self.rest(),
    {
        let ghost all = self.rest();
        let mut it = self;
        let mut ids: Vec<NodeId> = Vec::new();
        let mut cur: Option<NodeId> = it.next();
        proof {
            if all.len() > 0 {
                assert(seq![all[0]] + all.drop_first() =~= all);
            }
        }
        while cur.is_some()
            invariant
                it.wf(),
                cur matches Some(x) ==> ids@ + seq![x] + it.rest() == all,
                cur is None ==> ids@ == all,
            decreases it.rest().len() + (if cur is Some { 1int } else { 0 }),
        {
            let ghost before = ids@;
            let ghost left = it.rest();
            ids.push(cur.unwrap());
            cur = it.next();
            proof {
                if left.len() > 0 {
                    assert(ids@ + seq![left[0]] + left.drop_first() =~= all);
                } else {
                    assert(ids@ =~= all);
                }
            }
        }
        ids
    }

    /// How many siblings are still to come.
    pub fn count(self) -> (n: usize)
        requires
            self.wf(),
        ensures
            n == self.rest().len(),
    {
        self.collect().len()
    }
}

impl Clone for Tree {
    fn clone(&self) -> (tree: Self)
        ensures
            tree@ == self@,
    {
        let mut arena: Vec<Node> = Vec::new();
        for i in 0..self.arena.len()
            invariant
                arena@ == self.arena@.take(i as int),
        {
            arena.push(self.arena[i].clone());
            proof {
                assert(arena@ =~= self.arena@.take(i + 1));
            }
        }
        let mut free: Vec<NodeId> = Vec::new();
        for i in 0..self.free.len()
            invariant
                free@ == self.free@.take(i as int),
        {
            free.push(self.free[i]);
            proof {
                assert(free@ =~= self.free@.take(i + 1));
            }
        }
        proof {
            assert(self.arena@.take(self.arena@.len() as int) =~= self.arena@);
            assert(self.free@.take(self.free@.len() as int) =~= self.free@);
        }
        Tree { arena, free, root: self.root, shape: self.shape }
    }
}

impl Default for Tree {
    fn default() -> (tree: Self)
        ensures
            tree@.wf(),
            tree@.root is None,
            tree@.nodes.len() == 0,
            tree@.free.len() == 0,
    {
        Tree::new()
    }
}

impl Tree {
    /// An empty tree.
    pub fn new() -> (tree: Self)
        ensures
            tree@.wf(),
            tree@.root is None,
            tree@.nodes.len() == 0,
            tree@.free.len() == 0,
    {
        Tree {
            arena: Vec::new(),
            free: Vec::new(),
            root: None,
            shape: Ghost(Shape { kids: Map::empty(), depth: Map::empty(), bound: 0 }),
        }
    }

    /// A tree whose only node is a root made from `params`.
    pub fn with_root(params: NodeParams) -> (tree: Self)
        ensures
            tree@.wf(),
            tree@.root == Some(0u32),
            tree@.nodes.len() == 1,
            tree@.nodes[0]@ == params@,
            tree@.free.len() == 0,
            forall|x: NodeId| #[trigger] tree@.live(x) <==> x == 0,
            tree@.kids[0] == Seq::<NodeId>::empty(),
    {
        let node = Node::from_params(params);
        let ghost n = node;
        let mut arena: Vec<Node> = Vec::new();
        arena.push(node);
        let tree = Tree {
            arena,
            free: Vec::new(),
            root: Some(0u32),
            shape: Ghost(
                Shape {
                    kids: Map::empty().insert(0u32, Seq::empty()),
                    depth: Map::empty().insert(0u32, 0nat),
                    bound: 1,
                },
            ),
        };
        proof {
            assert(tree@.kids.dom() =~= tree@.depth.dom());
            assert forall|p: NodeId, m: Measure| tree@.live(p) implies #[trigger] tree@.balanced(
                p,
                m,
            ) by {
                assert(n.agg(m) == node::wrap64(node::own_amount(params@, m)));
            }
        }
        tree
    }

    /// The root node, if the tree has one.
    pub fn root(&self) -> (r: Option<NodeId>)
        ensures
            r == self@.root,
    {
        self.root
    }

    /// The number of live nodes.
    pub fn len(&self) -> (n: usize)
        requires
            self@.wf(),
        ensures
            n == self@.nodes.len() - self@.free.len(),
            n == self@.depth.dom().len(),
    {
        proof {
            self@.lemma_counts();
        }
        self.arena.len() - self.free.len()
    }

    /// Whether the tree has no live nodes.
    pub fn is_empty(&self) -> (r: bool)
        requires
            self@.wf(),
        ensures
            r == (self@.depth.dom().len() == 0),
    {
        self.len() == 0
    }

    /// Whether `id` names a node of the tree.
    pub fn is_live(&self, id: NodeId) -> (r: bool)
        requires
            self@.wf(),
        ensures
            r == self@.live(id),
    {
        if id as usize >= self.arena.len() {
            return false;
        }
        for i in 0..self.free.len()
            invariant
                self@.wf(),
                forall|j: int| 0 <= j < i ==> (#[trigger] self.free@[j]) != id,
        {
            if self.free[i] == id {
                proof {
                    assert(self@.free[i as int] == id);
                    assert(!self@.live(id));
                }
                return false;
            }
        }
        true
    }

    /// The node in slot `id`.
    pub fn node(&self, id: NodeId) -> (n: &Node)
        requires
            id < self@.nodes.len(),
        ensures
            *n == self@.nodes[id as int],
    {
        let i: usize = id as usize;
        &self.arena[i]
    }

    /// Write access to the node in slot `id`.
    pub fn node_mut(&mut self, id: NodeId) -> (n: &mut Node)
        requires
            id < old(self)@.nodes.len(),
        ensures
            *n == old(self)@.nodes[id as int],
            final(self)@ == (State {
                nodes: old(self)@.nodes.update(id as int, *final(n)),
                ..old(self)@
            }),
    {
        let i: usize = id as usize;
        &mut self.arena[i]
    }

    /// Puts `node` into the next slot.
    fn take_slot(&mut self, node: Node) -> (id: NodeId)
        requires
            old(self)@.slots(),
            old(self)@.has_room(),
        ensures
            id == old(self)@.next_slot(),
            final(self)@ == (State {
                free: if old(self)@.free.len() > 0 {
                    old(self)@.free.drop_last()
                } else {
                    old(self)@.free
                },
                nodes: if old(self)@.free.len() > 0 {
                    old(self)@.nodes.update(id as int, node)
                } else {
                    old(self)@.nodes.push(node)
                },
                ..old(self)@
            }),
    {
        match self.free.pop() {
            Some(id) => {
                proof {
                    assert(old(self)@.free[old(self)@.free.len() - 1] == id);
                }
                let i: usize = id as usize;
                self.arena[i] = node;
                id
            },
            None => {
                let id: NodeId = self.arena.len() as u32;
                self.arena.push(node);
                id
            },
        }
    }

    fn delta_of(&self, id: NodeId) -> (d: Delta)
        requires
            id < self@.nodes.len(),
        ensures
            forall|m: Measure| #[trigger] d.amount(m) == self@.nodes[id as int].agg(m),
    {
        let n = self.node(id);
        let d = Delta {
            logical: n.agg_logical,
            allocated: n.agg_allocated,
            files: n.agg_files,
            dirs: n.agg_dirs,
        };
        proof {
            assert forall|m: Measure| #[trigger] d.amount(m) == self@.nodes[id as int].agg(m) by {
                match m {
                    Measure::Logical => {},
                    Measure::Allocated => {},
                    Measure::Files => {},
                    Measure::Dirs => {},
                }
            }
        }
        d
    }

    /// Adds a node in front of the children of `parent`; the sums of all
    /// ancestors follow.
    pub fn add_child(&mut self, parent: NodeId, params: NodeParams) -> (id: NodeId)
        requires
            old(self)@.wf(),
            old(self)@.live(parent),
            old(self)@.has_room(),
        ensures
            final(self)@.wf(),
            old(self)@.added(final(self)@, parent, id, params@),
    {
        let ghost a = self@;
        proof {
            assert(a.node_ok(parent));
        }
        let p: usize = parent as usize;
        let mut node = Node::from_params(params);
        let ghost n = node;
        node.parent = Some(parent);
        node.next_sibling = self.arena[p].first_child;
        let id = self.take_slot(node);
        proof {
            if a.free.len() > 0 {
                assert(a.free[a.free.len() - 1] == id);
                assert(a.free.contains(id));
            }
            assert(a.live(parent) <==> parent < a.nodes.len() && !a.free.contains(parent));
        }
        self.arena[p].first_child = Some(id);
        proof {
            self.shape@ = Shape {
                kids: a.kids.insert(parent, seq![id] + a.kids[parent]).insert(id, Seq::empty()),
                depth: a.depth.insert(id, a.depth[parent] + 1),
                bound: if a.bound > a.depth[parent] + 2 {
                    a.bound
                } else {
                    a.depth[parent] + 2
                },
            };
            lemma_add_links(a, self@, parent, id);
            assert forall|m: Measure| #[trigger]
                self@.nodes[id as int].agg(m) == node::wrap64(
                    node::own_amount(self@.nodes[id as int]@, m),
                ) by {
                assert(n.agg(m) == node::wrap64(node::own_amount(params@, m)));
            }
            lemma_add_owes(a, self@, parent, id);
        }
        let delta = self.delta_of(id);
        let ghost b = self@;
        self.propagate(parent, delta);
        proof {
            assert forall|x: NodeId| #[trigger] a.live(x) implies a.nodes[x as int].same_data(
                self@.nodes[x as int],
            ) by {
                assert(a.node_ok(x));
                assert(b.nodes[x as int].same_but_agg(self@.nodes[x as int]));
            }
            assert(b.nodes[id as int].same_but_agg(self@.nodes[id as int]));
            lemma_slots_frame(b, self@);
        }
        id
    }

    /// Sets a node's own sizes; its sums and those of all ancestors follow.
    pub fn set_own_sizes(&mut self, id: NodeId, logical: u64, allocated: u64, ads: u64)
        requires
            old(self)@.wf(),
            old(self)@.live(id),
        ensures
            final(self)@.wf(),
            old(self)@.replaced(
                final(self)@,
                id,
                NodeData {
                    logical_size: logical,
                    allocated_size: allocated,
                    ads_size: ads,
                    ..old(self)@.nodes[id as int]@
                },
            ),
    {
        let ghost a = self@;
        proof {
            assert(a.node_ok(id));
        }
        let i: usize = id as usize;
        let n = &mut self.arena[i];
        let delta = Delta {
            logical: logical.wrapping_sub(n.logical_size),
            allocated: allocated.wrapping_add(ads).wrapping_sub(
                n.allocated_size.wrapping_add(n.ads_size),
            ),
            files: 0,
            dirs: 0,
        };
        n.logical_size = logical;
        n.allocated_size = allocated;
        n.ads_size = ads;
        let ghost b = self@;
        proof {
            lemma_resize(a, b, id, delta);
        }
        self.propagate(id, delta);
        proof {
            assert(b.nodes[id as int].same_but_agg(self@.nodes[id as int]));
            assert forall|x: NodeId|
                #![trigger self@.nodes[x as int]]
                a.live(x) && x != id implies a.nodes[x as int].same_data(
                self@.nodes[x as int],
            ) by {
                assert(a.node_ok(x));
                assert(b.nodes[x as int].same_but_agg(self@.nodes[x as int]));
            }
            lemma_slots_frame(a, self@);
        }
    }

    /// Gives a node a tag, or takes its tag away.
    pub fn set_tag(&mut self, id: NodeId, tag: Option<Tag>)
        requires
            old(self)@.wf(),
            old(self)@.live(id),
        ensures
            final(self)@.wf(),
            final(self)@ == (State {
                nodes: old(self)@.nodes.update(
                    id as int,
                    Node { tag, ..old(self)@.nodes[id as int] },
                ),
                ..old(self)@
            }),
    {
        let ghost a = self@;
        proof {
            assert(a.node_ok(id));
            let n = Node { tag, ..a.nodes[id as int] };
            assert forall|m: Measure| #[trigger] n.agg(m) == a.nodes[id as int].agg(m) by {}
            assert forall|m: Measure| #[trigger]
                node::own_amount(n@, m) == node::own_amount(a.nodes[id as int]@, m) by {}
            law_node_mut(a, id, n);
        }
        let n = self.node_mut(id);
        n.tag = tag;
    }

    /// Gives a node other flags and times.
    pub fn set_details(
        &mut self,
        id: NodeId,
        flags: NodeFlags,
        created: FileTime,
        accessed: FileTime,
        modified: FileTime,
    )
        requires
            old(self)@.wf(),
            old(self)@.live(id),
        ensures
            final(self)@.wf(),
            final(self)@ == (State {
                nodes: old(self)@.nodes.update(
                    id as int,
                    Node { flags, created, accessed, modified, ..old(self)@.nodes[id as int] },
                ),
                ..old(self)@
            }),
    {
        let ghost a = self@;
        proof {
            assert(a.node_ok(id));
            let n = Node { flags, created, accessed, modified, ..a.nodes[id as int] };
            assert forall|m: Measure| #[trigger] n.agg(m) == a.nodes[id as int].agg(m) by {}
            assert forall|m: Measure| #[trigger]
                node::own_amount(n@, m) == node::own_amount(a.nodes[id as int]@, m) by {}
            law_node_mut(a, id, n);
        }
        let n = self.node_mut(id);
        n.flags = flags;
        n.created = created;
        n.accessed = accessed;
        n.modified = modified;
    }

    /// Removes a subtree; the sums of all its ancestors follow.
    pub fn remove_subtree(&mut self, id: NodeId)
        requires
            old(self)@.wf(),
            old(self)@.live(id),
        ensures
            final(self)@.wf(),
            old(self)@.removed(final(self)@, id),
    {
        let ghost a = self@;
        let ghost gone = Set::new(|x: NodeId| a.within(x, id));
        proof {
            assert(a.node_ok(id));
        }
        let delta = self.delta_of(id).negated();
        match self.node(id).parent {
            Some(parent) => {
                let ghost k = a.kids[parent].index_of(id);
                proof {
                    a.lemma_parent(id, parent);
                    assert(a.kids[parent][k] == id);
                    assert(a.node_ok(parent));
                    if k > 0 {
                        assert(a.child_ok(parent, k - 1));
                        assert(a.node_ok(a.kids[parent][k - 1]));
                    }
                }
                self.unlink_child(parent, id);
                proof {
                    let cut = self@.nodes;
                    assert forall|i: int| 0 <= i < cut.len() implies {
                        &&& (#[trigger] cut[i]).parent == a.nodes[i].parent
                        &&& cut[i].same_data(a.nodes[i])
                        &&& cut[i].agg_logical == a.nodes[i].agg_logical
                        &&& cut[i].agg_allocated == a.nodes[i].agg_allocated
                        &&& cut[i].agg_files == a.nodes[i].agg_files
                        &&& cut[i].agg_dirs == a.nodes[i].agg_dirs
                        &&& !(i == parent && k == 0) ==> cut[i].first_child
                            == a.nodes[i].first_child
                        &&& !(k > 0 && i == a.kids[parent][k - 1]) ==> cut[i].next_sibling
                            == a.nodes[i].next_sibling
                    } by {}
                    self.shape@ = Shape {
                        kids: a.kids.remove_keys(gone).insert(parent, a.kids[parent].remove(k)),
                        depth: a.depth.remove_keys(gone),
                        bound: a.bound,
                    };
                    lemma_cut_links(a, self@, id, parent, k);
                    assert forall|m: Measure| #[trigger]
                        delta.amount(m) == node::wrap64(-a.nodes[id as int].agg(m)) by {}
                    lemma_cut_owes(a, self@, id, parent, k, delta);
                }
                let ghost b = self@;
                self.propagate(parent, delta);
                proof {
                    assert forall|x: NodeId| #[trigger] a.within(x, id) implies {
                        &&& x < self@.nodes.len()
                        &&& self@.nodes[x as int].first_child == a.nodes[x as int].first_child
                        &&& x != id ==> self@.nodes[x as int].next_sibling
                            == a.nodes[x as int].next_sibling
                    } by {
                        assert(a.node_ok(x));
                        assert(b.nodes[x as int].same_but_agg(self@.nodes[x as int]));
                        assert(a.node_ok(parent));
                        if k > 0 {
                            assert(a.child_ok(parent, k - 1));
                            assert(a.child_ok(parent, k));
                            let prev = a.kids[parent][k - 1];
                            assert(prev != id);
                            a.lemma_within_parent(prev, parent, id);
                        }
                        a.lemma_within_parent(id, parent, id);
                    }
                    assert forall|x: NodeId| #[trigger] self@.live(x) implies a.nodes[
                    x as int].same_data(self@.nodes[x as int]) by {
                        assert(a.live(x));
                        assert(a.node_ok(x));
                        assert(b.nodes[x as int].same_but_agg(self@.nodes[x as int]));
                    }
                }
            },
            None => {
                self.root = None;
                proof {
                    assert forall|x: NodeId| #[trigger] a.live(x) implies gone.contains(x) by {
                        a.lemma_all_within(x);
                    }
                    self.shape@ = Shape { kids: Map::empty(), depth: Map::empty(), bound: a.bound };
                    assert forall|x: NodeId| !a.depth.remove_keys(gone).dom().contains(x) by {
                        if a.depth.dom().contains(x) {
                            assert(a.live(x));
                        }
                    }
                    assert(a.depth.remove_keys(gone) =~= Map::<NodeId, nat>::empty());
                    assert forall|x: NodeId| #[trigger] a.within(x, id) implies x
                        < self@.nodes.len() by {
                        assert(a.node_ok(x));
                    }
                }
            },
        }
        let ghost c = self@;
        self.recycle(id, Ghost(a));
        proof {
            a.lemma_stack_order(id);
            lemma_cut_slots(a, self@, id);
            lemma_frame_free(c, self@);
            assert forall|x: NodeId| #[trigger] self@.live(x) implies a.nodes[x as int].same_data(
                self@.nodes[x as int],
            ) by {
                assert(c.live(x));
            }
        }
    }

    /// Puts the slots of the subtree of `id` on the free list. `a` is the tree
    /// from which the subtree was cut.
    fn recycle(&mut self, id: NodeId, Ghost(a): Ghost<State>)
        requires
            a.links(),
            a.live(id),
            old(self)@.nodes.len() == a.nodes.len(),
            forall|x: NodeId| #[trigger]
                a.within(x, id) ==> {
                    &&& x < old(self)@.nodes.len()
                    &&& old(self)@.nodes[x as int].first_child == a.nodes[x as int].first_child
                    &&& x != id ==> old(self)@.nodes[x as int].next_sibling
                        == a.nodes[x as int].next_sibling
                },
        ensures
            final(self)@ == (State {
                free: old(self)@.free + model::stack_order_one(a.rose(id)),
                ..old(self)@
            }),
    {
        let ghost total = model::stack_order_one(a.rose(id));
        let ghost mut out: Seq<NodeId> = Seq::empty();
        let ghost o = self@;
        let mut stack: Vec<NodeId> = Vec::new();
        stack.push(id);
        proof {
            let f = a.roses(stack@);
            assert(f.drop_last() =~= Seq::<model::Rose>::empty());
            assert(f.last() == a.rose(id));
            assert(model::stack_order(f.drop_last()) == Seq::<NodeId>::empty());
            assert(model::stack_order(f) =~= total);
            assert(out + total =~= total);
            assert(self@.free =~= o.free + out);
        }
        while stack.len() > 0
            invariant
                a.links(),
                a.live(id),
                total == model::stack_order_one(a.rose(id)),
                self@ == (State { free: o.free + out, ..o }),
                out + model::stack_order(a.roses(stack@)) == total,
                forall|i: int| 0 <= i < stack@.len() ==> a.within(#[trigger] stack@[i], id),
                forall|x: NodeId| #[trigger]
                    a.within(x, id) ==> {
                        &&& x < o.nodes.len()
                        &&& o.nodes[x as int].first_child == a.nodes[x as int].first_child
                        &&& x != id ==> o.nodes[x as int].next_sibling
                            == a.nodes[x as int].next_sibling
                    },
            decreases model::stack_order(a.roses(stack@)).len(),
        {
            let ghost s0 = stack@;
            let cur: NodeId = stack.pop().unwrap();
            let ghost rest = stack@;
            let ghost ks = a.kids[cur];
            proof {
                assert(s0[s0.len() - 1] == cur);
                assert(a.within(cur, id));
                assert(a.node_ok(cur));
                a.lemma_rose(cur);
                assert(a.roses(s0).drop_last() =~= a.roses(rest));
                assert(a.roses(s0).last() == a.rose(cur));
                assert(model::stack_order(a.roses(s0)) == model::stack_order_one(a.rose(cur))
                    + model::stack_order(a.roses(rest)));
                assert(model::stack_order_one(a.rose(cur)) == seq![cur] + model::stack_order(
                    a.roses(ks),
                ));
            }
            let ci: usize = cur as usize;
            let mut child: Option<NodeId> = self.arena[ci].first_child;
            let ghost mut j: int = 0;
            proof {
                assert(stack@ =~= rest + ks.take(0));
            }
            while child.is_some()
                invariant
                    a.links(),
                    a.live(id),
                    a.live(cur),
                    a.within(cur, id),
                    ks == a.kids[cur],
                    0 <= j <= ks.len(),
                    child == model::link_at(ks, j),
                    stack@ == rest + ks.take(j),
                    self@.nodes == o.nodes,
                    forall|x: NodeId| #[trigger]
                        a.within(x, id) ==> {
                            &&& x < o.nodes.len()
                            &&& o.nodes[x as int].first_child == a.nodes[x as int].first_child
                            &&& x != id ==> o.nodes[x as int].next_sibling
                                == a.nodes[x as int].next_sibling
                        },
                decreases ks.len() - j,
            {
                let c: NodeId = child.unwrap();
                proof {
                    assert(a.node_ok(cur));
                    assert(a.child_ok(cur, j));
                    a.lemma_within_parent(c, cur, id);
                    assert(a.within(c, id));
                }
                stack.push(c);
                let i: usize = c as usize;
                child = self.arena[i].next_sibling;
                proof {
                    assert(ks.take(j + 1) =~= ks.take(j).push(c));
                    j = j + 1;
                }
            }
            self.free.push(cur);
            proof {
                assert(ks.take(j) =~= ks);
                assert(stack@ =~= rest + ks);
                assert(a.roses(stack@) =~= a.roses(rest) + a.roses(ks));
                model::lemma_stack_concat(a.roses(rest), a.roses(ks));
                out = out.push(cur);
                assert(self@.free =~= o.free + out);
                assert(out + model::stack_order(a.roses(stack@)) =~= total);
                assert forall|i: int| 0 <= i < stack@.len() implies a.within(
                    #[trigger] stack@[i],
                    id,
                ) by {
                    if i < rest.len() {
                        assert(stack@[i] == s0[i]);
                    } else {
                        let x = i - rest.len();
                        assert(stack@[i] == ks[x]);
                        assert(a.child_ok(cur, x));
                        a.lemma_within_parent(ks[x], cur, id);
                    }
                }
            }
        }
        proof {
            assert(model::stack_order(a.roses(stack@)) =~= Seq::<NodeId>::empty());
            assert(out =~= total);
        }
    }

    /// Takes `id` out of the sibling list of `parent`.
    fn unlink_child(&mut self, parent: NodeId, id: NodeId)
        requires
            old(self)@.links(),
            old(self)@.live(id),
            old(self)@.nodes[id as int].parent == Some(parent),
        ensures
            ({
                let a = old(self)@;
                let b = final(self)@;
                let k = a.kids[parent].index_of(id);
                let next = a.nodes[id as int].next_sibling;
                &&& b == (State { nodes: b.nodes, ..a })
                &&& b.nodes.len() == a.nodes.len()
                &&& b.nodes == if k == 0 {
                    a.nodes.update(
                        parent as int,
                        Node { first_child: next, ..a.nodes[parent as int] },
                    )
                } else {
                    let prev = a.kids[parent][k - 1];
                    a.nodes.update(
                        prev as int,
                        Node { next_sibling: next, ..a.nodes[prev as int] },
                    )
                }
            }),
    {
        let ghost a = self@;
        let ghost ks = a.kids[parent];
        let ghost k = ks.index_of(id);
        proof {
            a.lemma_parent(id, parent);
            assert(a.node_ok(id));
            assert(a.node_ok(parent));
            assert(ks[k] == id);
            assert forall|i: int| 0 <= i < ks.len() && #[trigger] ks[i] == id implies i == k by {}
        }
        let pi: usize = parent as usize;
        let ii: usize = id as usize;
        let first: Option<NodeId> = self.arena[pi].first_child;
        let next: Option<NodeId> = self.arena[ii].next_sibling;
        let head: NodeId = first.unwrap();
        if head == id {
            proof {
                assert(ks[0] == id);
            }
            self.arena[pi].first_child = next;
            return;
        }
        let mut cur: NodeId = head;
        let ghost mut j: int = 0;
        proof {
            assert(a.child_ok(parent, 0));
            assert(a.node_ok(ks[0]));
            assert(a.child_ok(parent, k - 1));
            assert(a.node_ok(ks[k - 1]));
        }
        loop
            invariant_except_break
                self@ == a,
            invariant
                ks[k - 1] < a.nodes.len(),
                a.links(),
                a.live(parent),
                ks == a.kids[parent],
                0 <= j < k < ks.len(),
                ks[k] == id,
                cur == ks[j],
                cur < a.nodes.len(),
                a.nodes[id as int].next_sibling == next,
                forall|i: int| 0 <= i < ks.len() && #[trigger] ks[i] == id ==> i == k,
                self@.nodes.len() == a.nodes.len(),
            ensures
                self@ == (State {
                    nodes: a.nodes.update(
                        ks[k - 1] as int,
                        Node { next_sibling: next, ..a.nodes[ks[k - 1] as int] },
                    ),
                    ..a
                }),
            decreases ks.len() - j,
        {
            let ci: usize = cur as usize;
            proof {
                assert(a.node_ok(parent));
                assert(a.child_ok(parent, j));
                assert(a.child_ok(parent, j + 1));
                assert(a.node_ok(ks[j + 1]));
            }
            let n: NodeId = self.arena[ci].next_sibling.unwrap();
            if n == id {
                self.arena[ci].next_sibling = next;
                break;
            }
            cur = n;
            proof {
                j = j + 1;
            }
        }
    }

    /// The children of `parent`, in sibling order.
    pub fn children(&self, parent: NodeId) -> (it: Children<'_>)
        requires
            self@.links(),
            self@.live(parent),
        ensures
            it.wf(),
            it.rest() == self@.kids[parent],
    {
        proof {
            assert(self@.node_ok(parent));
            assert forall|i: int| 0 <= i < self@.kids[parent].len() implies self@.child_ok(
                parent,
                i,
            ) && (#[trigger] self@.kids[parent][i]) < self@.nodes.len() by {
                assert(self@.child_ok(parent, i));
                assert(self@.node_ok(self@.kids[parent][i]));
            }
        }
        let i: usize = parent as usize;
        Children {
            arena: &self.arena,
            next: self.arena[i].first_child,
            rest: Ghost(self@.kids[parent]),
        }
    }

    /// The ids from the root down to `id`.
    pub fn trail(&self, id: NodeId) -> (ids: Vec<NodeId>)
        requires
            self@.links(),
            self@.live(id),
        ensures
            ids@ == self@.trail_to(id, self@.depth[id]),
    {
        let ghost s = self@;
        let mut up: Vec<NodeId> = Vec::new();
        let mut cur: Option<NodeId> = Some(id);
        let ghost mut k: nat = 0;
        proof {
            assert(up@.reverse() =~= Seq::<NodeId>::empty());
        }
        while cur.is_some()
            invariant
                s == self@,
                s.links(),
                s.live(id),
                k <= s.depth[id] + 1,
                cur matches Some(x) ==> k <= s.depth[id] && s.live(x) && s.depth[x] == s.depth[id]
                    - k && s.trail_to(id, s.depth[id]) == s.trail_to(x, s.depth[x])
                    + up@.reverse(),
                cur is None ==> s.trail_to(id, s.depth[id]) == up@.reverse(),
            decreases s.depth[id] + 1 - k,
        {
            let x: NodeId = cur.unwrap();
            let ghost before = up@;
            proof {
                assert(s.node_ok(x));
            }
            up.push(x);
            let i: usize = x as usize;
            cur = self.arena[i].parent;
            proof {
                assert(up@.reverse() =~= seq![x] + before.reverse());
                match cur {
                    Some(q) => {
                        s.lemma_parent(x, q);
                        assert(s.trail_to(x, s.depth[x]) == s.trail_to(q, s.depth[q]).push(x));
                        assert(s.trail_to(x, s.depth[x]) + before.reverse() =~= s.trail_to(
                            q,
                            s.depth[q],
                        ) + up@.reverse());
                    },
                    None => {
                        assert(s.trail_to(x, 0) + before.reverse() =~= up@.reverse());
                    },
                }
                k = k + 1;
            }
        }
        reversed(&up)
    }

    /// The names from the root down to `id`.
    pub fn path_components(&self, id: NodeId) -> (parts: Vec<&str>)
        requires
            self@.links(),
            self@.live(id),
        ensures
            parts@.len() == self@.names_to(id).len(),
            forall|i: int|
                0 <= i < parts@.len() ==> (#[trigger] parts@[i])@ == self@.names_to(id)[i],
    {
        let ids = self.trail(id);
        let mut parts: Vec<&str> = Vec::new();
        proof {
            self@.lemma_trail(id, self@.depth[id]);
        }
        for i in 0..ids.len()
            invariant
                self@.links(),
                ids@ == self@.trail_to(id, self@.depth[id]),
                forall|j: int| 0 <= j < ids@.len() ==> (#[trigger] ids@[j]) < self@.nodes.len(),
                parts@.len() == i,
                forall|j: int|
                    0 <= j < i ==> (#[trigger] parts@[j])@ == self@.nodes[ids@[j] as int].name@,
        {
            let x: usize = ids[i] as usize;
            parts.push(self.arena[x].name.as_str());
        }
        parts
    }

    /// The path of `id`: the names from the root down, joined.
    pub fn path(&self, id: NodeId) -> (path: String)
        requires
            self@.links(),
            self@.live(id),
        ensures
            path@ == self@.path_to(id),
    {
        let parts = self.path_components(id);
        let mut path: String = String::new();
        let ghost names = self@.names_to(id);
        for i in 0..parts.len()
            invariant
                parts@.len() == names.len(),
                forall|j: int| 0 <= j < parts@.len() ==> (#[trigger] parts@[j])@ == names[j],
                path@ == text::join_all(names.take(i as int)),
        {
            path = text::join(path.as_str(), parts[i]);
            proof {
                assert(names.take(i + 1).drop_last() =~= names.take(i as int));
            }
        }
        proof {
            assert(names.take(names.len() as int) =~= names);
        }
        path
    }

    /// Applies `delta` to `from` and all its ancestors.
    fn propagate(&mut self, from: NodeId, delta: Delta)
        requires
            old(self)@.links(),
            old(self)@.live(from),
            forall|m: Measure| #[trigger] old(self)@.owes(from, m, delta.amount(m) as int),
            forall|p: NodeId, m: Measure|
                old(self)@.live(p) && p != from ==> #[trigger] old(self)@.balanced(p, m),
        ensures
            final(self)@.links(),
            final(self)@.sums(),
            old(self)@.same_but_aggs(final(self)@),
    {
        let mut cur: Option<NodeId> = Some(from);
        while cur.is_some()
            invariant
                old(self)@.links(),
                self@.links(),
                old(self)@.same_but_aggs(self@),
                match cur {
                    Some(x) => {
                        &&& self@.live(x)
                        &&& forall|m: Measure| #[trigger] self@.owes(x, m, delta.amount(m) as int)
                        &&& forall|p: NodeId, m: Measure|
                            self@.live(p) && p != x ==> #[trigger] self@.balanced(p, m)
                    },
                    None => self@.sums(),
                },
            decreases (match cur {
                Some(x) => self@.depth[x] + 1,
                None => 0nat,
            }),
        {
            let id: NodeId = cur.unwrap();
            let ghost before = self@;
            proof {
                assert(before.node_ok(id));
            }
            let i: usize = id as usize;
            let n = &mut self.arena[i];
            n.agg_logical = n.agg_logical.wrapping_add(delta.logical);
            n.agg_allocated = n.agg_allocated.wrapping_add(delta.allocated);
            n.agg_files = n.agg_files.wrapping_add(delta.files);
            n.agg_dirs = n.agg_dirs.wrapping_add(delta.dirs);
            cur = n.parent;
            proof {
                assert forall|m: Measure| #[trigger]
                    self@.nodes[id as int].agg(m) == node::wrap64(
                        before.nodes[id as int].agg(m) + delta.amount(m),
                    ) by {
                    match m {
                        Measure::Logical => {},
                        Measure::Allocated => {},
                        Measure::Files => {},
                        Measure::Dirs => {},
                    }
                }
                lemma_step(before, self@, id, delta);
                assert forall|p: NodeId, m: Measure|
                    self@.live(p) && cur != Some(p) implies #[trigger] self@.balanced(p, m) by {
                    assert(before.live(p));
                }
            }
        }
    }
}

} // verus!
