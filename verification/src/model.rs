//! The mathematical model of a tree: its arena, its links and its sums.

use vstd::prelude::*;

use crate::node::{Measure, Node, NodeData};
use crate::{node, text, NodeId};

verus! {

/// The contents of a tree. `kids` lists the children of each live node in
/// sibling order, `depth` is the distance of each live node from the root, and
/// every depth is below `bound`.
#[verifier::ext_equal]
pub struct State {
    pub nodes: Seq<Node>,
    pub free: Seq<NodeId>,
    pub root: Option<NodeId>,
    pub kids: Map<NodeId, Seq<NodeId>>,
    pub depth: Map<NodeId, nat>,
    pub bound: nat,
}

/// A node together with everything below it, in sibling order.
#[verifier::ext_equal]
pub struct Rose {
    pub id: NodeId,
    pub node: Node,
    pub kids: Seq<Rose>,
}

/// What a subtree holds, apart from where its nodes are stored.
#[verifier::ext_equal]
pub struct DataTree {
    pub data: NodeData,
    pub kids: Seq<DataTree>,
}

/// What a subtree holds.
pub open spec fn data_of(r: Rose) -> DataTree
    decreases r,
{
    DataTree {
        data: r.node@,
        kids: Seq::new(
            r.kids.len(),
            |i: int|
                if 0 <= i < r.kids.len() {
                    data_of(r.kids[i])
                } else {
                    arbitrary()
                },
        ),
    }
}

/// A tree of one node.
pub open spec fn data_leaf(d: NodeData) -> DataTree {
    DataTree { data: d, kids: Seq::empty() }
}

/// A tree with a further subtree, put in front of the children of the node
/// that is reached over `k` first children.
pub open spec fn with_first(t: DataTree, k: nat, s: DataTree) -> DataTree
    decreases k,
{
    if k == 0 {
        DataTree { data: t.data, kids: seq![s] + t.kids }
    } else {
        DataTree {
            data: t.data,
            kids: t.kids.update(0, with_first(t.kids[0], (k - 1) as nat, s)),
        }
    }
}

/// Whether `k` first children can be followed.
pub open spec fn has_spine(t: DataTree, k: nat) -> bool
    decreases k,
{
    k == 0 || (t.kids.len() > 0 && has_spine(t.kids[0], (k - 1) as nat))
}

/// The `i`-th entry of a sibling list as a link.
pub open spec fn link_at(ids: Seq<NodeId>, i: int) -> Option<NodeId> {
    if 0 <= i < ids.len() {
        Some(ids[i])
    } else {
        None
    }
}

/// The sum of the aggregates of the listed nodes.
pub open spec fn agg_sum(nodes: Seq<Node>, ids: Seq<NodeId>, m: Measure) -> int
    decreases ids.len(),
{
    if ids.len() == 0 {
        0
    } else {
        agg_sum(nodes, ids.drop_last(), m) + nodes[ids.last() as int].agg(m)
    }
}

impl State {
    /// Whether `id` names a node of the tree.
    pub open spec fn live(self, id: NodeId) -> bool {
        self.depth.dom().contains(id)
    }

    /// The `i`-th child of `p` is linked as such.
    pub open spec fn child_ok(self, p: NodeId, i: int) -> bool {
        let c = self.kids[p][i];
        &&& self.live(c)
        &&& self.nodes[c as int].parent == Some(p)
        &&& self.depth[c] == self.depth[p] + 1
        &&& self.nodes[c as int].next_sibling == link_at(self.kids[p], i + 1)
    }

    /// The links of `p` agree with `kids` and `depth`.
    pub open spec fn node_ok(self, p: NodeId) -> bool {
        &&& p < self.nodes.len()
        &&& self.depth[p] < self.bound
        &&& self.kids[p].no_duplicates()
        &&& self.nodes[p as int].first_child == link_at(self.kids[p], 0)
        &&& forall|i: int| 0 <= i < self.kids[p].len() ==> #[trigger] self.child_ok(p, i)
        &&& match self.nodes[p as int].parent {
            Some(q) => self.live(q) && self.kids[q].contains(p),
            None => {
                &&& self.root == Some(p)
                &&& self.nodes[p as int].next_sibling is None
                &&& self.depth[p] == 0
            },
        }
    }

    /// The live nodes form one tree below the root.
    pub open spec fn links(self) -> bool {
        &&& self.kids.dom() == self.depth.dom()
        &&& forall|p: NodeId| self.live(p) ==> #[trigger] self.node_ok(p)
        &&& match self.root {
            Some(r) => self.live(r) && self.nodes[r as int].parent is None,
            None => forall|p: NodeId| !#[trigger] self.live(p),
        }
    }

    /// Every arena slot is either live or on the free list, once.
    pub open spec fn slots(self) -> bool {
        &&& self.nodes.len() <= 0x1_0000_0000
        &&& self.free.no_duplicates()
        &&& forall|i: int| 0 <= i < self.free.len() ==> (#[trigger] self.free[i]) < self.nodes.len()
        &&& forall|id: NodeId| #[trigger]
            self.live(id) <==> id < self.nodes.len() && !self.free.contains(id)
    }

    /// The aggregate of `p` is its own amount plus its children's aggregates.
    pub open spec fn balanced(self, p: NodeId, m: Measure) -> bool {
        self.nodes[p as int].agg(m) == node::wrap64(
            node::own_amount(self.nodes[p as int]@, m) + agg_sum(self.nodes, self.kids[p], m),
        )
    }

    /// Every aggregate covers exactly the node and everything below it.
    pub open spec fn sums(self) -> bool {
        forall|p: NodeId, m: Measure| self.live(p) ==> #[trigger] self.balanced(p, m)
    }

    /// The invariant of a tree.
    pub open spec fn wf(self) -> bool {
        &&& self.links()
        &&& self.slots()
        &&& self.sums()
    }

    /// Whether one more node can be added.
    pub open spec fn has_room(self) -> bool {
        self.free.len() > 0 || self.nodes.len() <= u32::MAX
    }

    /// Whether the nodes are numbered in stack order, from the root on, with no
    /// number left free.
    pub open spec fn numbered(self) -> bool {
        &&& self.root == Some(0u32)
        &&& self.free.len() == 0
        &&& stack_order_one(self.rose(0)) == Seq::new(self.nodes.len(), |i: int| i as NodeId)
    }

    /// The slot that the next added node takes.
    pub open spec fn next_slot(self) -> NodeId {
        if self.free.len() > 0 {
            self.free.last()
        } else {
            self.nodes.len() as NodeId
        }
    }

    /// Whether `new` is this state with a node holding `d` as first child of
    /// `parent` in slot `id`.
    pub open spec fn added(self, new: State, parent: NodeId, id: NodeId, d: NodeData) -> bool {
        &&& id == self.next_slot()
        &&& new.nodes.len() == if self.free.len() > 0 {
            self.nodes.len()
        } else {
            self.nodes.len() + 1
        }
        &&& new.root == self.root
        &&& new.free == if self.free.len() > 0 {
            self.free.drop_last()
        } else {
            self.free
        }
        &&& new.kids == self.kids.insert(parent, seq![id] + self.kids[parent]).insert(
            id,
            Seq::empty(),
        )
        &&& new.depth == self.depth.insert(id, self.depth[parent] + 1)
        &&& new.nodes[id as int]@ == d
        &&& forall|x: NodeId| #[trigger]
            self.live(x) ==> self.nodes[x as int].same_data(new.nodes[x as int])
    }

    /// Whether `new` is this state without the subtree of `id`. The slots of
    /// the subtree go to the end of the free list in stack order.
    pub open spec fn removed(self, new: State, id: NodeId) -> bool {
        let gone = Set::new(|x: NodeId| self.within(x, id));
        &&& new.nodes.len() == self.nodes.len()
        &&& new.free == self.free + stack_order_one(self.rose(id))
        &&& new.depth == self.depth.remove_keys(gone)
        &&& match self.nodes[id as int].parent {
            Some(q) => {
                &&& new.root == self.root
                &&& new.kids == self.kids.remove_keys(gone).insert(
                    q,
                    self.kids[q].remove(self.kids[q].index_of(id)),
                )
            },
            None => new.root is None && new.kids == Map::<NodeId, Seq<NodeId>>::empty(),
        }
        &&& forall|x: NodeId| #[trigger]
            new.live(x) ==> self.nodes[x as int].same_data(new.nodes[x as int])
    }

    /// Whether `new` is this state with a node `id` that holds `d`, and nothing
    /// else is other than before but for aggregates.
    pub open spec fn replaced(self, new: State, id: NodeId, d: NodeData) -> bool {
        &&& new.nodes.len() == self.nodes.len()
        &&& new.free == self.free
        &&& new.root == self.root
        &&& new.kids == self.kids
        &&& new.depth == self.depth
        &&& new.bound == self.bound
        &&& new.nodes[id as int]@ == d
        &&& forall|x: NodeId|
            self.live(x) && x != id ==> self.nodes[x as int].same_data(
                #[trigger] new.nodes[x as int],
            )
    }

    /// Whether `other` differs from this state in aggregates at most.
    pub open spec fn same_but_aggs(self, other: State) -> bool {
        &&& self.free == other.free
        &&& self.root == other.root
        &&& self.kids == other.kids
        &&& self.depth == other.depth
        &&& self.bound == other.bound
        &&& self.nodes.len() == other.nodes.len()
        &&& forall|i: int|
            0 <= i < self.nodes.len() ==> (#[trigger] self.nodes[i]).same_but_agg(other.nodes[i])
    }

    /// The `k`-th ancestor of `x`.
    pub open spec fn up(self, x: NodeId, k: nat) -> NodeId
        decreases k,
    {
        if k == 0 {
            x
        } else {
            self.up(self.nodes[x as int].parent->0, (k - 1) as nat)
        }
    }

    /// The ids from the `k`-th ancestor of `x` down to `x`.
    pub open spec fn trail_to(self, x: NodeId, k: nat) -> Seq<NodeId>
        decreases k,
    {
        if k == 0 {
            seq![x]
        } else {
            self.trail_to(self.nodes[x as int].parent->0, (k - 1) as nat).push(x)
        }
    }

    /// The names from the root down to `x`.
    pub open spec fn names_to(self, x: NodeId) -> Seq<Seq<char>> {
        let ids = self.trail_to(x, self.depth[x]);
        Seq::new(ids.len(), |i: int| self.nodes[ids[i] as int].name@)
    }

    /// The path of `x`.
    pub open spec fn path_to(self, x: NodeId) -> Seq<char> {
        text::join_all(self.names_to(x))
    }

    /// Whether `x` is `top` or lies below it.
    pub open spec fn within(self, x: NodeId, top: NodeId) -> bool {
        &&& self.live(x)
        &&& self.depth[x] >= self.depth[top]
        &&& self.up(x, (self.depth[x] - self.depth[top]) as nat) == top
    }

    /// The subtree of `x` down to `fuel` levels below it.
    pub open spec fn rose_to(self, x: NodeId, fuel: nat) -> Rose
        decreases fuel,
    {
        Rose {
            id: x,
            node: self.nodes[x as int],
            kids: if fuel == 0 {
                Seq::empty()
            } else {
                Seq::new(
                    self.kids[x].len(),
                    |i: int| self.rose_to(self.kids[x][i], (fuel - 1) as nat),
                )
            },
        }
    }

    /// The whole subtree of `x`.
    pub open spec fn rose(self, x: NodeId) -> Rose {
        self.rose_to(x, self.bound)
    }

    /// The subtrees of the listed nodes.
    pub open spec fn roses(self, ids: Seq<NodeId>) -> Seq<Rose> {
        Seq::new(ids.len(), |i: int| self.rose(ids[i]))
    }
}

/// The node ids of a forest in the order in which a stack hands them out: the
/// last tree first, each node before what lies below it.
pub open spec fn stack_order(forest: Seq<Rose>) -> Seq<NodeId>
    decreases forest,
{
    if forest.len() == 0 {
        Seq::empty()
    } else {
        stack_order_one(forest.last()) + stack_order(forest.drop_last())
    }
}

/// The node ids of one subtree in stack order.
pub open spec fn stack_order_one(r: Rose) -> Seq<NodeId>
    decreases r,
{
    seq![r.id] + stack_order(r.kids)
}

/// What is put below a subtree that was just put in place belongs to that
/// subtree.
pub proof fn lemma_first_below_first(t: DataTree, k: nat, a: DataTree, b: DataTree)
    requires
        has_spine(t, k),
    ensures
        with_first(with_first(t, k, a), k + 1, b) == with_first(
            t,
            k,
            DataTree { data: a.data, kids: seq![b] + a.kids },
        ),
        has_spine(with_first(t, k, a), k + 1),
    decreases k,
{
    reveal_with_fuel(with_first, 3);
    reveal_with_fuel(has_spine, 3);
    if k == 0 {
        let one = with_first(t, 0, a);
        assert(one.kids[0] == a);
        assert(with_first(one, 1, b).kids =~= with_first(
            t,
            0,
            DataTree { data: a.data, kids: seq![b] + a.kids },
        ).kids);
    } else {
        let sub = t.kids[0];
        lemma_first_below_first(sub, (k - 1) as nat, a, b);
        let one = with_first(t, k, a);
        assert(one.kids[0] == with_first(sub, (k - 1) as nat, a));
        assert(with_first(one, k + 1, b).kids =~= with_first(
            t,
            k,
            DataTree { data: a.data, kids: seq![b] + a.kids },
        ).kids);
    }
}

/// A stack hands out the trees pushed last before the ones below them.
pub proof fn lemma_stack_concat(a: Seq<Rose>, b: Seq<Rose>)
    ensures
        stack_order(a + b) == stack_order(b) + stack_order(a),
    decreases b.len(),
{
    if b.len() == 0 {
        assert(a + b =~= a);
        assert(stack_order(b) =~= Seq::<NodeId>::empty());
    } else {
        assert((a + b).drop_last() =~= a + b.drop_last());
        assert((a + b).last() == b.last());
        lemma_stack_concat(a, b.drop_last());
    }
}

/// The first tree of a forest comes last in stack order.
proof fn lemma_first_last(f: Seq<Rose>)
    requires
        f.len() > 0,
    ensures
        stack_order(f) == stack_order(f.drop_first()) + stack_order_one(f[0]),
{
    let one = seq![f[0]];
    assert(f =~= one + f.drop_first());
    lemma_stack_concat(one, f.drop_first());
    assert(one.drop_last() =~= Seq::<Rose>::empty());
    assert(stack_order(one.drop_last()) == Seq::<NodeId>::empty());
    assert(stack_order(one) =~= stack_order_one(f[0]));
}

/// Forests whose trees have the same orders have the same order.
proof fn lemma_same_order(f: Seq<Rose>, g: Seq<Rose>)
    requires
        f.len() == g.len(),
        forall|i: int|
            0 <= i < f.len() ==> stack_order_one(#[trigger] f[i]) == stack_order_one(g[i]),
    ensures
        stack_order(f) == stack_order(g),
    decreases f.len(),
{
    if f.len() > 0 {
        assert forall|i: int| 0 <= i < f.drop_last().len() implies stack_order_one(
            #[trigger] f.drop_last()[i],
        ) == stack_order_one(g.drop_last()[i]) by {
            assert(f[i] == f.drop_last()[i]);
        }
        lemma_same_order(f.drop_last(), g.drop_last());
        assert(f[f.len() - 1] == f.last());
    }
}

/// What the nodes of a forest add up to.
pub open spec fn forest_total(forest: Seq<Rose>, m: Measure) -> int
    decreases forest,
{
    if forest.len() == 0 {
        0
    } else {
        forest_total(forest.drop_last(), m) + total(forest.last(), m)
    }
}

/// What the nodes of a subtree add up to.
pub open spec fn total(r: Rose, m: Measure) -> int
    decreases r,
{
    node::own_amount(r.node@, m) + forest_total(r.kids, m)
}

impl State {
    /// The live nodes are the arena slots that are not free.
    pub proof fn lemma_counts(self)
        requires
            self.slots(),
        ensures
            self.free.len() <= self.nodes.len(),
            self.depth.dom().finite(),
            self.depth.dom().len() == self.nodes.len() - self.free.len(),
    {
        let n = self.nodes.len() as int;
        let all = vstd::set_lib::set_int_range(0, n);
        vstd::set_lib::lemma_int_range(0, n);
        let free = self.free.to_set();
        self.free.unique_seq_to_set();
        let taken = free.map(|x: NodeId| x as int);
        let dom = self.depth.dom();
        let live = dom.map(|x: NodeId| x as int);
        assert(live =~= all.difference(taken)) by {
            assert forall|v: int| all.difference(taken).contains(v) implies live.contains(v) by {
                let x = v as NodeId;
                assert(!self.free.contains(x)) by {
                    if self.free.contains(x) {
                        assert(free.contains(x));
                        assert(taken.contains(x as int));
                    }
                }
                assert(self.live(x));
                assert(dom.contains(x));
            }
            assert forall|v: int| live.contains(v) implies all.difference(taken).contains(v) by {
                let x = choose|x: NodeId| dom.contains(x) && v == x as int;
                assert(self.live(x));
                if taken.contains(v) {
                    let y = choose|y: NodeId| free.contains(y) && v == y as int;
                    assert(self.free.contains(y));
                }
            }
        }
        assert(taken.subset_of(all)) by {
            assert forall|v: int| taken.contains(v) implies all.contains(v) by {
                let y = choose|y: NodeId| free.contains(y) && v == y as int;
                let k = choose|k: int| 0 <= k < self.free.len() && self.free[k] == y;
            }
        }
        vstd::set_lib::lemma_map_size(free, taken, |x: NodeId| x as int);
        vstd::set_lib::lemma_len_subset(taken, all);
        vstd::set_lib::lemma_set_disjoint_lens(taken, live);
        assert(taken + live =~= all);
        assert(live.finite());
        let back = live.map(|v: int| v as NodeId);
        assert(dom =~= back) by {
            assert forall|x: NodeId| dom.contains(x) implies back.contains(x) by {
                assert(live.contains(x as int));
            }
        }
        live.lemma_map_finite(|v: int| v as NodeId);
        vstd::set_lib::lemma_map_size(dom, live, |x: NodeId| x as int);
    }

    /// An ancestor is live and as many levels up.
    pub proof fn lemma_up(self, x: NodeId, k: nat)
        requires
            self.links(),
            self.live(x),
            k <= self.depth[x],
        ensures
            self.live(self.up(x, k)),
            self.depth[self.up(x, k)] == self.depth[x] - k,
        decreases k,
    {
        if k > 0 {
            assert(self.node_ok(x));
            let q = self.nodes[x as int].parent->0;
            let i = choose|i: int| 0 <= i < self.kids[q].len() && self.kids[q][i] == x;
            assert(self.node_ok(q));
            assert(self.child_ok(q, i));
            self.lemma_up(q, (k - 1) as nat);
        }
    }

    /// The ancestor one level further up is the parent.
    pub proof fn lemma_up_step(self, x: NodeId, k: nat)
        ensures
            self.up(x, k + 1) == self.nodes[self.up(x, k) as int].parent->0,
        decreases k,
    {
        reveal_with_fuel(State::up, 2);
        if k > 0 {
            self.lemma_up_step(self.nodes[x as int].parent->0, (k - 1) as nat);
        }
    }

    /// Every node of a trail is live; the trail starts at the ancestor and
    /// ends at the node.
    pub proof fn lemma_trail(self, x: NodeId, k: nat)
        requires
            self.links(),
            self.live(x),
            k <= self.depth[x],
        ensures
            self.trail_to(x, k).len() == k + 1,
            self.trail_to(x, k).last() == x,
            self.trail_to(x, k)[0] == self.up(x, k),
            forall|i: int|
                0 <= i <= k ==> self.live(#[trigger] self.trail_to(x, k)[i])
                    && self.trail_to(x, k)[i] < self.nodes.len(),
        decreases k,
    {
        assert(self.node_ok(x));
        if k > 0 {
            let q = self.nodes[x as int].parent->0;
            self.lemma_parent(x, q);
            self.lemma_trail(q, (k - 1) as nat);
            let t = self.trail_to(q, (k - 1) as nat);
            assert forall|i: int| 0 <= i <= k implies self.live(#[trigger] self.trail_to(x, k)[i])
                && self.trail_to(x, k)[i] < self.nodes.len() by {
                if i < k {
                    assert(self.trail_to(x, k)[i] == t[i]);
                }
            }
        }
    }

    /// The trail from a nearer ancestor is the end of the one from a farther.
    pub proof fn lemma_trail_end(self, x: NodeId, k: nat, n: nat)
        requires
            k <= n,
        ensures
            self.trail_to(x, n).len() == n + 1,
            self.trail_to(x, k) == self.trail_to(x, n).skip(n - k),
        decreases n,
    {
        if n > 0 {
            let up = self.nodes[x as int].parent->0;
            let less = if k > 0 {
                (k - 1) as nat
            } else {
                0
            };
            self.lemma_trail_end(up, less, (n - 1) as nat);
            assert(self.trail_to(x, k) =~= self.trail_to(x, n).skip(n - k));
        } else {
            assert(self.trail_to(x, k) =~= self.trail_to(x, n).skip(n - k));
        }
    }

    /// The parent of a node is live, another node, and one level up.
    pub proof fn lemma_parent(self, x: NodeId, q: NodeId)
        requires
            self.links(),
            self.live(x),
            self.nodes[x as int].parent == Some(q),
        ensures
            self.live(q),
            q != x,
            self.depth[x] == self.depth[q] + 1,
            self.kids[q].contains(x),
    {
        assert(self.node_ok(x));
        let k = choose|k: int| 0 <= k < self.kids[q].len() && self.kids[q][k] == x;
        assert(self.node_ok(q));
        assert(self.child_ok(q, k));
    }

    /// Below `top` lie `top` and what lies below its children.
    pub proof fn lemma_within(self, x: NodeId, top: NodeId)
        requires
            self.links(),
            self.live(top),
        ensures
            self.within(x, top) <==> x == top || exists|i: int|
                0 <= i < self.kids[top].len() && self.within(x, #[trigger] self.kids[top][i]),
    {
        assert(self.node_ok(top));
        let ks = self.kids[top];
        if self.within(x, top) && x != top {
            let k = (self.depth[x] - self.depth[top]) as nat;
            assert(k > 0);
            let c = self.up(x, (k - 1) as nat);
            self.lemma_up(x, (k - 1) as nat);
            self.lemma_up_step(x, (k - 1) as nat);
            assert(self.node_ok(c));
            assert(self.nodes[c as int].parent is Some);
            self.lemma_parent(c, top);
            let i = choose|i: int| 0 <= i < ks.len() && ks[i] == c;
            assert(self.within(x, ks[i]));
        }
        if exists|i: int| 0 <= i < ks.len() && self.within(x, #[trigger] ks[i]) {
            let i = choose|i: int| 0 <= i < ks.len() && self.within(x, #[trigger] ks[i]);
            assert(self.child_ok(top, i));
            self.lemma_up_step(x, (self.depth[x] - self.depth[ks[i]]) as nat);
        }
    }

    /// A node below `top`, other than `top`, has its parent below `top`; and a
    /// node whose parent lies below `top` does so itself.
    pub proof fn lemma_within_parent(self, x: NodeId, q: NodeId, top: NodeId)
        requires
            self.links(),
            self.live(top),
            self.live(x),
            self.nodes[x as int].parent == Some(q),
        ensures
            x != top ==> (self.within(x, top) <==> self.within(q, top)),
            x == top ==> !self.within(q, top),
    {
        self.lemma_parent(x, q);
        if x != top {
            if self.depth[x] > self.depth[top] {
                assert(self.up(x, (self.depth[x] - self.depth[top]) as nat) == self.up(
                    q,
                    (self.depth[q] - self.depth[top]) as nat,
                ));
            }
        }
    }

    /// No node lies deeper than there are nodes.
    pub proof fn lemma_depth(self, x: NodeId)
        requires
            self.links(),
            self.slots(),
            self.live(x),
        ensures
            self.depth[x] < self.nodes.len(),
    {
        let trail = self.trail_to(x, self.depth[x]);
        self.lemma_trail(x, self.depth[x]);
        self.lemma_trail_depths(x, self.depth[x]);
        assert forall|i: int, j: int| 0 <= i < j < trail.len() implies trail[i] != trail[j] by {
            assert(self.depth[trail[i]] == i);
            assert(self.depth[trail[j]] == j);
        }
        trail.unique_seq_to_set();
        self.lemma_counts();
        assert(trail.to_set().subset_of(self.depth.dom())) by {
            assert forall|y: NodeId| trail.to_set().contains(y) implies self.depth.dom().contains(
                y,
            ) by {
                let i = choose|i: int| 0 <= i < trail.len() && trail[i] == y;
                assert(self.live(trail[i]));
            }
        }
        vstd::set_lib::lemma_len_subset(trail.to_set(), self.depth.dom());
    }

    /// The depths of the nodes from the `k`-th ancestor down.
    proof fn lemma_trail_depths(self, x: NodeId, k: nat)
        requires
            self.links(),
            self.live(x),
            k <= self.depth[x],
        ensures
            self.trail_to(x, k).len() == k + 1,
            forall|i: int|
                0 <= i <= k ==> self.depth[#[trigger] self.trail_to(x, k)[i]] == self.depth[x] - k
                    + i,
        decreases k,
    {
        if k > 0 {
            assert(self.node_ok(x));
            let q = self.nodes[x as int].parent->0;
            self.lemma_parent(x, q);
            self.lemma_trail_depths(q, (k - 1) as nat);
        }
    }

    /// Climbing in two stages.
    pub proof fn lemma_up_up(self, x: NodeId, k: nat, m: nat)
        ensures
            self.up(self.up(x, k), m) == self.up(x, k + m),
        decreases k,
    {
        if k > 0 {
            self.lemma_up_up(self.nodes[x as int].parent->0, (k - 1) as nat, m);
        }
    }

    /// What lies below something below `c` lies below `c`.
    pub proof fn lemma_within_trans(self, a: NodeId, b: NodeId, c: NodeId)
        requires
            self.within(a, b),
            self.within(b, c),
        ensures
            self.within(a, c),
    {
        self.lemma_up_up(
            a,
            (self.depth[a] - self.depth[b]) as nat,
            (self.depth[b] - self.depth[c]) as nat,
        );
    }

    /// Every node lies below the root.
    pub proof fn lemma_all_within(self, x: NodeId)
        requires
            self.links(),
            self.live(x),
        ensures
            self.root matches Some(r) && self.live(r) && self.within(x, r),
        decreases self.depth[x],
    {
        assert(self.node_ok(x));
        match self.nodes[x as int].parent {
            Some(q) => {
                self.lemma_parent(x, q);
                self.lemma_all_within(q);
                let r = self.root->0;
                assert(self.node_ok(r));
                if x != r {
                    self.lemma_within_parent(x, q, r);
                }
            },
            None => {},
        }
    }

    /// Stack order lists the nodes of a subtree, each once.
    pub proof fn lemma_stack_order(self, x: NodeId)
        requires
            self.links(),
            self.live(x),
        ensures
            stack_order_one(self.rose(x)).no_duplicates(),
            forall|y: NodeId| #[trigger]
                stack_order_one(self.rose(x)).contains(y) <==> self.within(y, x),
        decreases self.bound - self.depth[x], self.kids[x].len() + 1,
    {
        assert(self.node_ok(x));
        self.lemma_rose(x);
        let ks = self.kids[x];
        self.lemma_stack_order_kids(x, ks.len());
        assert(ks.take(ks.len() as int) =~= ks);
        let below = stack_order(self.roses(ks));
        let all = stack_order_one(self.rose(x));
        assert(all == seq![x] + below);
        assert(!below.contains(x)) by {
            if below.contains(x) {
                let i = choose|i: int| 0 <= i < ks.len() && self.within(x, #[trigger] ks[i]);
                assert(self.child_ok(x, i));
            }
        }
        assert forall|y: NodeId| #[trigger] all.contains(y) <==> self.within(y, x) by {
            self.lemma_within(y, x);
            if all.contains(y) {
                let k = choose|k: int| 0 <= k < all.len() && all[k] == y;
                if k > 0 {
                    assert(below[k - 1] == y);
                    assert(below.contains(y));
                }
            }
            if y == x {
                assert(all[0] == y);
            }
            if below.contains(y) {
                let k = choose|k: int| 0 <= k < below.len() && below[k] == y;
                assert(all[k + 1] == y);
            }
        }
        assert(all.no_duplicates()) by {
            assert forall|i: int, j: int| 0 <= i < all.len() && 0 <= j < all.len() && i
                != j implies all[i] != all[j] by {
                if i > 0 {
                    assert(below[i - 1] == all[i]);
                }
                if j > 0 {
                    assert(below[j - 1] == all[j]);
                }
            }
        }
    }

    proof fn lemma_stack_order_kids(self, x: NodeId, n: nat)
        requires
            self.links(),
            self.live(x),
            n <= self.kids[x].len(),
        ensures
            stack_order(self.roses(self.kids[x].take(n as int))).no_duplicates(),
            forall|y: NodeId| #[trigger]
                stack_order(self.roses(self.kids[x].take(n as int))).contains(y) <==> exists|i: int|
                    0 <= i < n && self.within(y, #[trigger] self.kids[x][i]),
        decreases self.bound - self.depth[x], n,
    {
        assert(self.node_ok(x));
        let ks = self.kids[x];
        let ids = ks.take(n as int);
        let out = stack_order(self.roses(ids));
        if n == 0 {
            assert(out =~= Seq::<NodeId>::empty());
        } else {
            let c = ks[n - 1];
            let init = ks.take(n - 1);
            assert(self.child_ok(x, n - 1));
            assert(self.node_ok(c));
            self.lemma_stack_order_kids(x, (n - 1) as nat);
            self.lemma_stack_order(c);
            assert(self.roses(ids).drop_last() =~= self.roses(init));
            assert(self.roses(ids).last() == self.rose(c));
            let one = stack_order_one(self.rose(c));
            let rest = stack_order(self.roses(init));
            assert(out == one + rest);
            assert forall|y: NodeId| one.contains(y) implies !rest.contains(y) by {
                if rest.contains(y) {
                    let i = choose|i: int| 0 <= i < n - 1 && self.within(y, #[trigger] ks[i]);
                    assert(self.child_ok(x, i));
                    assert(self.within(y, c));
                    assert(ks[i] != c);
                }
            }
            assert forall|y: NodeId| #[trigger] out.contains(y) <==> exists|i: int|
                0 <= i < n && self.within(y, #[trigger] ks[i]) by {
                if out.contains(y) {
                    let k = choose|k: int| 0 <= k < out.len() && out[k] == y;
                    if k < one.len() {
                        assert(one[k] == y);
                        assert(one.contains(y));
                        assert(self.within(y, ks[n - 1]));
                    } else {
                        assert(rest[k - one.len()] == y);
                        assert(rest.contains(y));
                    }
                }
                if one.contains(y) {
                    let k = choose|k: int| 0 <= k < one.len() && one[k] == y;
                    assert(out[k] == y);
                }
                if rest.contains(y) {
                    let k = choose|k: int| 0 <= k < rest.len() && rest[k] == y;
                    assert(out[k + one.len()] == y);
                }
                if exists|i: int| 0 <= i < n && self.within(y, #[trigger] ks[i]) {
                    let i = choose|i: int| 0 <= i < n && self.within(y, #[trigger] ks[i]);
                    if i < n - 1 {
                        assert(rest.contains(y));
                    } else {
                        assert(one.contains(y));
                    }
                }
            }
            assert(out.no_duplicates()) by {
                assert forall|i: int, j: int| 0 <= i < j < out.len() implies out[i] != out[j] by {
                    if i < one.len() {
                        assert(one[i] == out[i]);
                        assert(one.contains(out[i]));
                        if j < one.len() {
                            assert(one[j] == out[j]);
                        } else {
                            assert(rest[j - one.len()] == out[j]);
                            assert(rest.contains(out[j]));
                        }
                    } else {
                        assert(rest[i - one.len()] == out[i]);
                        assert(rest[j - one.len()] == out[j]);
                    }
                }
            }
        }
    }

    /// What the subtree of `x` holds.
    pub open spec fn data(self, x: NodeId) -> DataTree {
        data_of(self.rose(x))
    }

    /// What a subtree holds is what its node and its children's subtrees hold.
    pub proof fn lemma_data(self, x: NodeId)
        requires
            self.links(),
            self.live(x),
        ensures
            self.data(x).data == self.nodes[x as int]@,
            self.data(x).kids == Seq::new(
                self.kids[x].len(),
                |i: int| self.data(self.kids[x][i]),
            ),
    {
        self.lemma_rose(x);
        let r = self.rose(x);
        assert(self.data(x).kids =~= Seq::new(
            self.kids[x].len(),
            |i: int| self.data(self.kids[x][i]),
        )) by {
            assert forall|i: int| 0 <= i < self.kids[x].len() implies self.data(x).kids[i]
                == self.data(self.kids[x][i]) by {
                assert(r.kids[i] == self.rose(self.kids[x][i]));
            }
        }
    }

    /// The node that is reached from `x` over `k` first children.
    pub open spec fn spine(self, x: NodeId, k: nat) -> NodeId
        decreases k,
    {
        if k == 0 {
            x
        } else {
            self.kids[self.spine(x, (k - 1) as nat)][0]
        }
    }

    /// Adding a node leaves the subtrees alone that do not hold its parent.
    pub proof fn lemma_added_elsewhere(
        self,
        b: State,
        parent: NodeId,
        id: NodeId,
        d: NodeData,
        x: NodeId,
    )
        requires
            self.links(),
            b.links(),
            self.live(parent),
            !self.live(id),
            self.added(b, parent, id, d),
            self.live(x),
            !self.within(parent, x),
        ensures
            b.data(x) == self.data(x),
        decreases self.bound - self.depth[x],
    {
        assert(self.node_ok(x));
        assert(b.live(x));
        self.lemma_data(x);
        b.lemma_data(x);
        let ks = self.kids[x];
        assert(b.kids[x] == ks);
        assert forall|i: int| 0 <= i < ks.len() implies #[trigger] b.data(ks[i]) == self.data(
            ks[i],
        ) by {
            assert(self.child_ok(x, i));
            assert(self.node_ok(ks[i]));
            self.lemma_within(parent, x);
            self.lemma_added_elsewhere(b, parent, id, d, ks[i]);
        }
        assert(b.data(x).kids =~= self.data(x).kids);
    }

    /// Adding a node below the end of a spine puts it in front of the children
    /// there.
    pub proof fn lemma_added_spine(
        self,
        b: State,
        parent: NodeId,
        id: NodeId,
        d: NodeData,
        x: NodeId,
        k: nat,
    )
        requires
            self.links(),
            b.links(),
            self.live(parent),
            !self.live(id),
            self.added(b, parent, id, d),
            self.live(x),
            self.spine(x, k) == parent,
            forall|j: nat| j < k ==> self.live(#[trigger] self.spine(x, j)) && self.kids[self.spine(x, j)].len() > 0,
        ensures
            b.data(x) == with_first(self.data(x), k, data_leaf(d)),
            has_spine(self.data(x), k),
        decreases k,
    {
        assert(self.node_ok(x));
        assert(b.live(x));
        self.lemma_data(x);
        b.lemma_data(x);
        let ks = self.kids[x];
        if k == 0 {
            assert(b.live(id));
            b.lemma_data(id);
            assert(b.data(id).kids =~= Seq::<DataTree>::empty());
            assert(b.data(id) == data_leaf(d));
            assert forall|i: int| 0 <= i < ks.len() implies #[trigger] b.data(ks[i]) == self.data(
                ks[i],
            ) by {
                assert(self.child_ok(x, i));
                self.lemma_added_elsewhere(b, parent, id, d, ks[i]);
            }
            let want = seq![data_leaf(d)] + self.data(x).kids;
            assert(b.kids[x] == seq![id] + ks);
            assert forall|i: int| 0 <= i < want.len() implies b.data(x).kids[i] == want[i] by {
                if i > 0 {
                    assert(b.kids[x][i] == ks[i - 1]);
                } else {
                    assert(b.kids[x][0] == id);
                }
            }
            assert(b.data(x).kids =~= want);
        } else {
            assert(self.spine(x, 0) == x);
            let y = ks[0];
            assert(self.child_ok(x, 0));
            self.lemma_spine_shift(x, (k - 1) as nat);
            assert forall|j: nat| j < k - 1 implies self.live(#[trigger] self.spine(y, j))
                && self.kids[self.spine(y, j)].len() > 0 by {
                self.lemma_spine_shift(x, j);
            }
            self.lemma_added_spine(b, parent, id, d, y, (k - 1) as nat);
            self.lemma_spine_within(y, (k - 1) as nat);
            assert(x != parent) by {
                self.lemma_spine_within(y, (k - 1) as nat);
            }
            assert(b.kids[x] == ks);
            assert forall|i: int| 0 < i < ks.len() implies #[trigger] b.data(ks[i]) == self.data(
                ks[i],
            ) by {
                assert(self.child_ok(x, i));
                assert(ks[i] != y);
                self.lemma_added_elsewhere(b, parent, id, d, ks[i]);
            }
            let want = self.data(x).kids.update(
                0,
                with_first(self.data(x).kids[0], (k - 1) as nat, data_leaf(d)),
            );
            assert(self.data(x).kids[0] == self.data(y));
            assert(b.data(x).kids =~= want);
        }
    }

    /// Adding a node leaves the order of the nodes alone where the new node is not.
    proof fn lemma_added_order_elsewhere(
        self,
        b: State,
        parent: NodeId,
        id: NodeId,
        d: NodeData,
        x: NodeId,
    )
        requires
            self.links(),
            b.links(),
            self.live(parent),
            !self.live(id),
            self.added(b, parent, id, d),
            self.live(x),
            !self.within(parent, x),
        ensures
            stack_order_one(b.rose(x)) == stack_order_one(self.rose(x)),
        decreases self.bound - self.depth[x],
    {
        assert(self.node_ok(x));
        assert(b.live(x));
        self.lemma_rose(x);
        b.lemma_rose(x);
        let ks = self.kids[x];
        assert(b.kids[x] == ks);
        assert forall|i: int| 0 <= i < ks.len() implies stack_order_one(#[trigger] b.roses(ks)[i])
            == stack_order_one(self.roses(ks)[i]) by {
            assert(self.child_ok(x, i));
            assert(self.node_ok(ks[i]));
            self.lemma_within(parent, x);
            self.lemma_added_order_elsewhere(b, parent, id, d, ks[i]);
        }
        lemma_same_order(b.roses(ks), self.roses(ks));
    }

    /// A node added on the path of first children comes last in stack order.
    pub proof fn lemma_added_order(
        self,
        b: State,
        parent: NodeId,
        id: NodeId,
        d: NodeData,
        x: NodeId,
        k: nat,
    )
        requires
            self.links(),
            b.links(),
            self.live(parent),
            !self.live(id),
            self.added(b, parent, id, d),
            self.live(x),
            self.spine(x, k) == parent,
            forall|j: nat|
                j < k ==> self.live(#[trigger] self.spine(x, j)) && self.kids[self.spine(
                    x,
                    j,
                )].len() > 0,
        ensures
            stack_order_one(b.rose(x)) == stack_order_one(self.rose(x)).push(id),
        decreases k,
    {
        assert(self.node_ok(x));
        assert(b.live(x));
        self.lemma_rose(x);
        b.lemma_rose(x);
        let ks = self.kids[x];
        if k == 0 {
            assert(b.live(id));
            b.lemma_rose(id);
            let leaf = b.rose(id);
            assert(leaf.kids =~= Seq::<Rose>::empty());
            assert(stack_order_one(leaf) =~= seq![id]);
            assert forall|i: int| 0 <= i < ks.len() implies stack_order_one(
                #[trigger] b.roses(ks)[i],
            ) == stack_order_one(self.roses(ks)[i]) by {
                assert(self.child_ok(x, i));
                self.lemma_added_order_elsewhere(b, parent, id, d, ks[i]);
            }
            lemma_same_order(b.roses(ks), self.roses(ks));
            assert(b.kids[x] == seq![id] + ks);
            assert(b.roses(seq![id] + ks) =~= seq![leaf] + b.roses(ks));
            lemma_stack_concat(seq![leaf], b.roses(ks));
            assert(seq![leaf].drop_last() =~= Seq::<Rose>::empty());
            assert(stack_order(seq![leaf].drop_last()) == Seq::<NodeId>::empty());
            assert(stack_order(seq![leaf]) =~= seq![id]);
            assert(stack_order_one(b.rose(x)) =~= stack_order_one(self.rose(x)).push(id));
        } else {
            assert(self.spine(x, 0) == x);
            let y = ks[0];
            assert(self.child_ok(x, 0));
            self.lemma_spine_shift(x, (k - 1) as nat);
            assert forall|j: nat| j < k - 1 implies self.live(#[trigger] self.spine(y, j))
                && self.kids[self.spine(y, j)].len() > 0 by {
                self.lemma_spine_shift(x, j);
            }
            self.lemma_added_order(b, parent, id, d, y, (k - 1) as nat);
            self.lemma_spine_within(y, (k - 1) as nat);
            assert(b.kids[x] == ks);
            let rest = ks.drop_first();
            assert forall|i: int| 0 <= i < rest.len() implies stack_order_one(
                #[trigger] b.roses(rest)[i],
            ) == stack_order_one(self.roses(rest)[i]) by {
                assert(rest[i] == ks[i + 1]);
                assert(self.child_ok(x, i + 1));
                assert(ks[i + 1] != y);
                self.lemma_added_order_elsewhere(b, parent, id, d, rest[i]);
            }
            lemma_same_order(b.roses(rest), self.roses(rest));
            lemma_first_last(b.roses(ks));
            lemma_first_last(self.roses(ks));
            assert(b.roses(ks).drop_first() =~= b.roses(rest));
            assert(self.roses(ks).drop_first() =~= self.roses(rest));
            assert(stack_order_one(b.rose(x)) =~= stack_order_one(self.rose(x)).push(id));
        }
    }

    /// Adding a node at the end of a spine keeps the spine, which then goes on
    /// to the new node.
    pub proof fn lemma_added_keeps_spine(
        self,
        b: State,
        parent: NodeId,
        id: NodeId,
        d: NodeData,
        x: NodeId,
        k: nat,
        i: nat,
    )
        requires
            self.links(),
            self.live(parent),
            !self.live(id),
            self.added(b, parent, id, d),
            self.live(x),
            self.spine(x, k) == parent,
            forall|j: nat|
                j < k ==> self.live(#[trigger] self.spine(x, j)) && self.kids[self.spine(
                    x,
                    j,
                )].len() > 0,
            i <= k + 1,
        ensures
            i <= k ==> b.spine(x, i) == self.spine(x, i),
            i == k + 1 ==> b.spine(x, i) == id,
        decreases i,
    {
        if i > 0 {
            self.lemma_added_keeps_spine(b, parent, id, d, x, k, (i - 1) as nat);
            let y = self.spine(x, (i - 1) as nat);
            if i <= k {
                self.lemma_spine_within(x, (i - 1) as nat);
                self.lemma_spine_within(x, k);
                assert(y != parent);
                assert(y != id);
                assert(b.kids[y] == self.kids[y]);
            } else {
                assert(b.kids[parent] == seq![id] + self.kids[parent]);
            }
        }
    }

    /// A spine from `x` starts with its first child.
    pub proof fn lemma_spine_shift(self, x: NodeId, k: nat)
        ensures
            self.spine(x, k + 1) == self.spine(self.kids[x][0], k),
        decreases k,
    {
        reveal_with_fuel(State::spine, 2);
        if k > 0 {
            self.lemma_spine_shift(x, (k - 1) as nat);
        }
    }

    /// The end of a spine lies below its start.
    pub proof fn lemma_spine_within(self, x: NodeId, k: nat)
        requires
            self.links(),
            self.live(x),
            forall|j: nat|
                j < k ==> self.live(#[trigger] self.spine(x, j)) && self.kids[self.spine(
                    x,
                    j,
                )].len() > 0,
        ensures
            self.within(self.spine(x, k), x),
            self.depth[self.spine(x, k)] == self.depth[x] + k,
        decreases k,
    {
        if k > 0 {
            let p = self.spine(x, (k - 1) as nat);
            assert(self.live(p));
            assert(self.node_ok(p));
            assert(self.child_ok(p, 0));
            self.lemma_spine_within(x, (k - 1) as nat);
            self.lemma_within_parent(self.kids[p][0], p, x);
        }
    }

    proof fn lemma_rose_fuel(self, x: NodeId, f: nat)
        requires
            self.links(),
            self.live(x),
            self.depth[x] + f + 1 >= self.bound,
        ensures
            self.rose_to(x, f) == self.rose_to(x, f + 1),
        decreases f,
    {
        assert(self.node_ok(x));
        let ks = self.kids[x];
        if f == 0 {
            if ks.len() > 0 {
                assert(self.child_ok(x, 0));
                assert(self.node_ok(ks[0]));
            }
            assert(self.rose_to(x, 1).kids =~= Seq::<Rose>::empty());
        } else {
            assert forall|i: int| 0 <= i < ks.len() implies self.rose_to(ks[i], (f - 1) as nat)
                == #[trigger] self.rose_to(ks[i], f) by {
                assert(self.child_ok(x, i));
                self.lemma_rose_fuel(ks[i], (f - 1) as nat);
            }
            let a = self.rose_to(x, f).kids;
            let b = self.rose_to(x, f + 1).kids;
            assert(a.len() == ks.len() && b.len() == ks.len());
            assert forall|i: int| 0 <= i < ks.len() implies a[i] == b[i] by {
                assert(a[i] == self.rose_to(ks[i], (f - 1) as nat));
                assert(b[i] == self.rose_to(ks[i], (f + 1 - 1) as nat));
            }
            assert(a =~= b);
        }
    }

    proof fn lemma_rose_enough(self, x: NodeId, f: nat)
        requires
            self.links(),
            self.live(x),
            self.depth[x] + f + 1 >= self.bound,
        ensures
            self.rose_to(x, f) == self.rose_to(x, self.bound) || f > self.bound,
            f > self.bound ==> self.rose_to(x, f) == self.rose_to(x, self.bound),
        decreases (if f > self.bound { f - self.bound } else { self.bound - f }),
    {
        assert(self.node_ok(x));
        if f < self.bound {
            self.lemma_rose_fuel(x, f);
            self.lemma_rose_enough(x, f + 1);
        } else if f > self.bound {
            self.lemma_rose_fuel(x, (f - 1) as nat);
            self.lemma_rose_enough(x, (f - 1) as nat);
        }
    }

    /// A subtree is its node with the subtrees of its children.
    pub proof fn lemma_rose(self, x: NodeId)
        requires
            self.links(),
            self.live(x),
        ensures
            self.rose(x) == (Rose {
                id: x,
                node: self.nodes[x as int],
                kids: self.roses(self.kids[x]),
            }),
    {
        assert(self.node_ok(x));
        let ks = self.kids[x];
        if self.bound > 0 {
            assert forall|i: int| 0 <= i < ks.len() implies #[trigger] self.rose(ks[i])
                == self.rose_to(ks[i], (self.bound - 1) as nat) by {
                assert(self.child_ok(x, i));
                self.lemma_rose_enough(ks[i], (self.bound - 1) as nat);
            }
            assert(self.rose(x).kids =~= self.roses(ks));
        }
    }

    /// Every aggregate is the total over the subtree, reduced to 64 bits.
    pub proof fn law_aggregates(self, x: NodeId)
        requires
            self.wf(),
            self.live(x),
        ensures
            forall|m: Measure| #[trigger]
                self.nodes[x as int].agg(m) == node::wrap64(total(self.rose(x), m)),
        decreases self.bound - self.depth[x],
    {
        assert(self.node_ok(x));
        self.lemma_rose(x);
        let ks = self.kids[x];
        assert forall|m: Measure| #[trigger]
            self.nodes[x as int].agg(m) == node::wrap64(total(self.rose(x), m)) by {
            assert(self.balanced(x, m));
            assert forall|i: int| 0 <= i < ks.len() implies self.live(#[trigger] ks[i])
                && self.nodes[ks[i] as int].agg(m) == node::wrap64(total(self.rose(ks[i]), m)) by {
                assert(self.child_ok(x, i));
                assert(self.node_ok(ks[i]));
                self.law_aggregates(ks[i]);
            }
            self.lemma_forest_sum(ks, m);
        }
    }

    proof fn lemma_forest_sum(self, ids: Seq<NodeId>, m: Measure)
        requires
            forall|i: int|
                0 <= i < ids.len() ==> self.nodes[(#[trigger] ids[i]) as int].agg(m) == node::wrap64(
                    total(self.rose(ids[i]), m),
                ),
        ensures
            node::wrap64(agg_sum(self.nodes, ids, m)) == node::wrap64(forest_total(self.roses(ids), m)),
        decreases ids.len(),
    {
        if ids.len() > 0 {
            let init = ids.drop_last();
            assert forall|i: int| 0 <= i < init.len() implies self.nodes[(
            #[trigger] init[i]) as int].agg(m) == node::wrap64(total(self.rose(init[i]), m)) by {
                assert(init[i] == ids[i]);
            }
            self.lemma_forest_sum(init, m);
            assert(self.roses(ids).drop_last() =~= self.roses(init));
            assert(self.roses(ids).last() == self.rose(ids.last()));
            assert(ids[ids.len() - 1] == ids.last());
        }
    }
}

} // verus!
