//! Folding the events of a scan into a tree.
//!
//! A directory comes before what is in it. A node whose directory is not known
//! is counted as an orphan and left out.
use vstd::prelude::*;
use vstd::string::*;

use crate::hashing;
use crate::hashing::PathIds;
use crate::model::State;
use crate::node::{Node, NodeData, NodeKind, NodeParams, Tag};
use crate::paths;
use crate::scan::{ScanEvent, Upsert, UpsertView};
use crate::tree::Tree;
use crate::visit;
use crate::NodeId;

verus! {

/// A builder in mathematical terms.
pub struct BuilderView {
    pub state: State,
    /// The directories by the canonical texts of their paths.
    pub dirs: Map<Seq<char>, NodeId>,
    pub orphans: u64,
}

impl BuilderView {
    /// The tree is in order and every directory is a node of it.
    pub open spec fn wf(self) -> bool {
        &&& self.state.wf()
        &&& forall|p: Seq<char>| #[trigger]
            self.dirs.dom().contains(p) ==> self.state.live(self.dirs[p])
    }

    /// The node that an event's directory stands for.
    pub open spec fn parent_of(self, u: UpsertView) -> Option<NodeId> {
        match u.parent_path {
            Some(p) => if self.dirs.dom().contains(paths::canonical(p)) {
                Some(self.dirs[paths::canonical(p)])
            } else {
                None
            },
            None => None,
        }
    }

    /// Whether an event has no place: a second root, or a node whose directory
    /// is not known.
    pub open spec fn is_orphan(self, u: UpsertView) -> bool {
        if u.parent_path is None {
            self.state.depth.dom().len() != 0
        } else {
            self.parent_of(u) is None
        }
    }

    /// Whether `new` is this builder with the node of an event as `id`.
    pub open spec fn upserted(self, new: BuilderView, u: UpsertView, id: NodeId) -> bool {
        &&& !self.is_orphan(u)
        &&& match self.parent_of(u) {
            Some(parent) => self.state.added(new.state, parent, id, u.params),
            None => {
                &&& id == 0
                &&& new.state.root == Some(id)
                &&& new.state.nodes.len() == 1
                &&& new.state.nodes[0]@ == u.params
                &&& new.state.free.len() == 0
                &&& forall|x: NodeId| #[trigger] new.state.live(x) <==> x == id
                &&& new.state.kids[id] == Seq::<NodeId>::empty()
            },
        }
        &&& new.dirs == if u.params.kind == NodeKind::Directory {
            self.dirs.insert(paths::canonical(u.path), id)
        } else {
            self.dirs
        }
        &&& new.orphans == self.orphans
    }
}

/// Whether `id` is a directory whose path has the canonical text `p`.
pub open spec fn is_dir_at(s: State, id: NodeId, p: Seq<char>) -> bool {
    s.live(id) && s.nodes[id as int].kind == NodeKind::Directory && paths::canonical(s.path_to(id))
        == p
}

/// Whether a map holds the directories of a tree by their paths.
pub open spec fn indexes(s: State, dirs: Map<Seq<char>, NodeId>) -> bool {
    &&& forall|p: Seq<char>| #[trigger] dirs.dom().contains(p) ==> is_dir_at(s, dirs[p], p)
    &&& forall|x: NodeId|
        s.live(x) && s.nodes[x as int].kind == NodeKind::Directory
            ==> #[trigger] dirs.dom().contains(paths::canonical(s.path_to(x)))
}

/// The paths of the directories of a subtree.
pub open spec fn doomed_dirs(s: State, dirs: Map<Seq<char>, NodeId>, id: NodeId) -> Set<Seq<char>> {
    Set::new(|p: Seq<char>| dirs.dom().contains(p) && s.within(dirs[p], id))
}

/// Whether `new` is a tree in which a node has the sizes, flags and times of
/// `d`, and nothing else is other than before but for aggregates.
pub open spec fn restated(s: State, new: State, id: NodeId, d: NodeData) -> bool {
    s.replaced(
        new,
        id,
        NodeData {
            name: s.nodes[id as int]@.name,
            kind: s.nodes[id as int]@.kind,
            tag: s.nodes[id as int]@.tag,
            ..d
        },
    )
}

/// Builds a tree of the events of a scan.
pub struct TreeBuilder {
    tree: Tree,
    dirs: PathIds,
    /// How many nodes were left out because their directory is not known.
    pub orphans: u64,
}

impl View for TreeBuilder {
    type V = BuilderView;

    closed spec fn view(&self) -> BuilderView {
        BuilderView {
            state: self.tree@,
            dirs: hashing::path_ids(self.dirs),
            orphans: self.orphans,
        }
    }
}

impl Default for TreeBuilder {
    fn default() -> (b: Self)
        ensures
            b@.wf(),
            b@.state.root is None,
            b@.state.nodes.len() == 0,
            b@.state.free.len() == 0,
            b@.dirs.dom() == Set::<Seq<char>>::empty(),
            b@.orphans == 0,
    {
        TreeBuilder::new()
    }
}

impl TreeBuilder {
    /// A builder without a tree.
    pub fn new() -> (b: Self)
        ensures
            b@.wf(),
            b@.state.root is None,
            b@.state.nodes.len() == 0,
            b@.state.free.len() == 0,
            b@.dirs.dom() == Set::<Seq<char>>::empty(),
            b@.orphans == 0,
    {
        TreeBuilder { tree: Tree::new(), dirs: hashing::new_path_ids(), orphans: 0 }
    }

    /// Takes in an event. Problems are not the builder's business.
    pub fn apply(&mut self, event: ScanEvent)
        requires
            old(self)@.wf(),
            old(self)@.state.has_room(),
            old(self)@.orphans < u64::MAX,
        ensures
            final(self)@.wf(),
            match event {
                ScanEvent::Upsert(u) => if old(self)@.is_orphan(u@) {
                    final(self)@ == (BuilderView {
                        orphans: (old(self)@.orphans + 1) as u64,
                        ..old(self)@
                    })
                } else {
                    exists|id: NodeId| old(self)@.upserted(final(self)@, u@, id)
                },
                ScanEvent::Error(_) => final(self)@ == old(self)@,
            },
    {
        let _ = self.apply_tracked(event);
    }

    /// Takes in an event and says which node it became.
    pub fn apply_tracked(&mut self, event: ScanEvent) -> (r: Option<NodeId>)
        requires
            old(self)@.wf(),
            old(self)@.state.has_room(),
            old(self)@.orphans < u64::MAX,
        ensures
            final(self)@.wf(),
            match event {
                ScanEvent::Upsert(u) => match r {
                    Some(id) => old(self)@.upserted(final(self)@, u@, id),
                    None => old(self)@.is_orphan(u@) && final(self)@ == (BuilderView {
                        orphans: (old(self)@.orphans + 1) as u64,
                        ..old(self)@
                    }),
                },
                ScanEvent::Error(_) => r is None && final(self)@ == old(self)@,
            },
    {
        match event {
            ScanEvent::Upsert(u) => self.upsert(u),
            ScanEvent::Error(_) => None,
        }
    }

    fn upsert(&mut self, u: Upsert) -> (r: Option<NodeId>)
        requires
            old(self)@.wf(),
            old(self)@.state.has_room(),
            old(self)@.orphans < u64::MAX,
        ensures
            final(self)@.wf(),
            match r {
                Some(id) => old(self)@.upserted(final(self)@, u@, id),
                None => old(self)@.is_orphan(u@) && final(self)@ == (BuilderView {
                    orphans: (old(self)@.orphans + 1) as u64,
                    ..old(self)@
                }),
            },
    {
        let ghost before = self@;
        let is_dir = u.params.kind == NodeKind::Directory;
        let id: NodeId = match &u.parent_path {
            None => {
                if !self.tree.is_empty() {
                    self.orphans = self.orphans + 1;
                    return None;
                }
                self.tree = Tree::with_root(u.params.clone());
                proof {
                    assert forall|p: Seq<char>| #[trigger]
                        before.dirs.dom().contains(p) implies false by {
                        assert(before.state.live(before.dirs[p]));
                        assert(before.state.depth.dom().contains(before.dirs[p]));
                        before.state.lemma_counts();
                        assert(before.state.depth.dom() =~= Set::<NodeId>::empty()) by {
                            before.state.depth.dom().lemma_len0_is_empty();
                        }
                    }
                    assert(self@.state.live(0));
                }
                0
            },
            Some(parent) => {
                let key = paths::canonical_path(parent.as_str());
                match hashing::get_path_id(&self.dirs, key.as_str()) {
                    None => {
                        self.orphans = self.orphans + 1;
                        return None;
                    },
                    Some(parent_id) => self.tree.add_child(parent_id, u.params.clone()),
                }
            },
        };
        let ghost between = self@;
        proof {
            assert(between.state.live(id));
            assert forall|p: Seq<char>| #[trigger]
                before.dirs.dom().contains(p) implies between.state.live(before.dirs[p]) by {
                assert(before.state.live(before.dirs[p]));
            }
        }
        if is_dir {
            let key = paths::canonical_path(u.path.as_str());
            hashing::insert_path_id(&mut self.dirs, key, id);
        }
        Some(id)
    }

    /// A builder that goes on with a tree.
    pub fn from_tree(tree: Tree) -> (b: Self)
        requires
            tree@.wf(),
        ensures
            b@.wf(),
            b@.state == tree@,
            b@.orphans == 0,
            indexes(tree@, b@.dirs),
    {
        let ghost s = tree@;
        let mut dirs = hashing::new_path_ids();
        if let Some(root) = tree.root() {
            let ids = visit::subtree_ids(&tree, root);
            proof {
                visit::lemma_subtree(s, root);
            }
            for i in 0..ids.len()
                invariant
                    s == tree@,
                    s.wf(),
                    s.root == Some(root),
                    s.live(root),
                    ids@ == visit::subtree(s, root),
                    forall|x: NodeId| #[trigger] ids@.contains(x) <==> s.within(x, root),
                    forall|p: Seq<char>| #[trigger]
                        hashing::path_ids(dirs).dom().contains(p) ==> is_dir_at(
                            s,
                            hashing::path_ids(dirs)[p],
                            p,
                        ),
                    forall|j: int|
                        0 <= j < i && s.nodes[(#[trigger] ids@[j]) as int].kind
                            == NodeKind::Directory ==> hashing::path_ids(dirs).dom().contains(
                            paths::canonical(s.path_to(ids@[j])),
                        ),
            {
                let id: NodeId = ids[i];
                proof {
                    assert(ids@.contains(ids@[i as int]));
                    assert(s.within(id, root));
                    assert(s.node_ok(id));
                }
                if tree.node(id).is_dir() {
                    let key = paths::canonical_path(tree.path(id).as_str());
                    hashing::insert_path_id(&mut dirs, key, id);
                }
            }
            proof {
                assert forall|x: NodeId|
                    s.live(x) && s.nodes[x as int].kind == NodeKind::Directory implies (
                #[trigger] hashing::path_ids(dirs).dom().contains(
                    paths::canonical(s.path_to(x)),
                )) by {
                    s.lemma_all_within(x);
                    assert(ids@.contains(x));
                    let j = choose|j: int| 0 <= j < ids@.len() && ids@[j] == x;
                    assert(s.nodes[ids@[j] as int].kind == NodeKind::Directory);
                }
            }
        }
        TreeBuilder { tree, dirs, orphans: 0 }
    }

    /// Gives a node a tag, or takes its tag away.
    pub fn set_tag(&mut self, id: NodeId, tag: Option<Tag>)
        requires
            old(self)@.wf(),
            old(self)@.state.live(id),
        ensures
            final(self)@.wf(),
            final(self)@ == (BuilderView {
                state: State {
                    nodes: old(self)@.state.nodes.update(
                        id as int,
                        Node { tag, ..old(self)@.state.nodes[id as int] },
                    ),
                    ..old(self)@.state
                },
                ..old(self)@
            }),
    {
        let ghost before = self@;
        self.tree.set_tag(id, tag);
        proof {
            assert forall|p: Seq<char>| #[trigger]
                self@.dirs.dom().contains(p) implies self@.state.live(self@.dirs[p]) by {
                assert(before.state.live(before.dirs[p]));
            }
        }
    }

    /// Gives a node the sizes, flags and times that were found anew.
    pub fn restat(&mut self, id: NodeId, params: &NodeParams)
        requires
            old(self)@.wf(),
            old(self)@.state.live(id),
        ensures
            final(self)@.wf(),
            final(self)@.dirs == old(self)@.dirs,
            final(self)@.orphans == old(self)@.orphans,
            restated(old(self)@.state, final(self)@.state, id, params@),
    {
        let ghost before = self@;
        self.tree.set_own_sizes(
            id,
            params.logical_size,
            params.allocated_size,
            params.ads_size,
        );
        let ghost between = self@;
        proof {
            assert(between.state.live(id));
        }
        self.tree.set_details(
            id,
            params.flags,
            params.created,
            params.accessed,
            params.modified,
        );
        proof {
            assert(before.state.node_ok(id));
            assert forall|p: Seq<char>| #[trigger]
                self@.dirs.dom().contains(p) implies self@.state.live(self@.dirs[p]) by {
                assert(before.state.live(before.dirs[p]));
            }
            assert forall|x: NodeId|
                before.state.live(x) && x != id implies before.state.nodes[x as int].same_data(
                #[trigger] self@.state.nodes[x as int],
            ) by {
                assert(before.state.node_ok(x));
                assert(self@.state.nodes[x as int] == between.state.nodes[x as int]);
            }
        }
    }

    /// Takes a subtree out of the tree, with its directories.
    pub fn remove_node(&mut self, id: NodeId)
        requires
            old(self)@.wf(),
            old(self)@.state.live(id),
        ensures
            final(self)@.wf(),
            old(self)@.state.removed(final(self)@.state, id),
            final(self)@.orphans == old(self)@.orphans,
            final(self)@.dirs == old(self)@.dirs.remove_keys(
                doomed_dirs(old(self)@.state, old(self)@.dirs, id),
            ),
    {
        let ghost before = self@;
        let ghost s = self@.state;
        let ids = visit::subtree_ids(&self.tree, id);
        let marks = visit::marks_of(&ids);
        let entries = hashing::path_entries(&self.dirs);
        proof {
            visit::lemma_subtree(s, id);
            assert forall|x: NodeId| #[trigger] visit::marked(marks@, x) <==> s.within(x, id) by {
                assert(visit::marked(marks@, x) <==> ids@.contains(x));
            }
        }
        for i in 0..entries.len()
            invariant
                self.tree@ == s,
                self.orphans == before.orphans,
                before.state == s,
                forall|x: NodeId| #[trigger] visit::marked(marks@, x) <==> s.within(x, id),
                forall|j: int|
                    0 <= j < entries@.len() ==> before.dirs.dom().contains(
                        (#[trigger] entries@[j]).0@,
                    ) && before.dirs[entries@[j].0@] == entries@[j].1,
                forall|p: Seq<char>|
                    #![trigger hashing::path_ids(self.dirs).dom().contains(p)]
                    #![trigger before.dirs.dom().contains(p)]
                    hashing::path_ids(self.dirs).dom().contains(p) <==> before.dirs.dom().contains(
                        p,
                    ) && !(s.within(before.dirs[p], id) && exists|j: int|
                        0 <= j < i && (#[trigger] entries@[j]).0@ == p),
                forall|p: Seq<char>| #[trigger]
                    hashing::path_ids(self.dirs).dom().contains(p) ==> hashing::path_ids(
                        self.dirs,
                    )[p] == before.dirs[p],
        {
            let ghost m = hashing::path_ids(self.dirs);
            let gone = visit::is_marked(&marks, entries[i].1);
            proof {
                assert(gone == s.within(entries@[i as int].1, id));
                assert(before.dirs[entries@[i as int].0@] == entries@[i as int].1);
            }
            if gone {
                hashing::remove_path_id(&mut self.dirs, entries[i].0.as_str());
            }
            proof {
                let key = entries@[i as int].0@;
                assert forall|p: Seq<char>|
                    #![trigger hashing::path_ids(self.dirs).dom().contains(p)]
                    #![trigger before.dirs.dom().contains(p)]
                    hashing::path_ids(self.dirs).dom().contains(p) <==> before.dirs.dom().contains(
                        p,
                    ) && !(s.within(before.dirs[p], id) && exists|j: int|
                        0 <= j < i + 1 && (#[trigger] entries@[j]).0@ == p) by {
                    assert(m.dom().contains(p) <==> before.dirs.dom().contains(p) && !(s.within(
                        before.dirs[p],
                        id,
                    ) && exists|j: int| 0 <= j < i && (#[trigger] entries@[j]).0@ == p));
                    if p == key {
                        assert(entries@[i as int].0@ == p);
                    }
                    if exists|j: int| 0 <= j < i && (#[trigger] entries@[j]).0@ == p {
                        let j = choose|j: int| 0 <= j < i && (#[trigger] entries@[j]).0@ == p;
                        assert(0 <= j < i + 1 && entries@[j].0@ == p);
                    }
                }
            }
        }
        self.tree.remove_subtree(id);
        proof {
            let gone = doomed_dirs(s, before.dirs, id);
            let want = before.dirs.remove_keys(gone);
            assert forall|p: Seq<char>| #[trigger]
                self@.dirs.dom().contains(p) <==> want.dom().contains(p) by {
                if before.dirs.dom().contains(p) {
                    let j = choose|j: int|
                        0 <= j < entries@.len() && (#[trigger] entries@[j]).0@ == p;
                    assert(entries@[j].0@ == p);
                }
            }
            assert(self@.dirs =~= want);
            assert forall|p: Seq<char>| #[trigger]
                self@.dirs.dom().contains(p) implies self@.state.live(self@.dirs[p]) by {
                assert(want.dom().contains(p));
                assert(before.dirs.dom().contains(p));
                assert(before.state.live(before.dirs[p]));
            }
        }
    }

    /// The tree that was built.
    pub fn into_tree(self) -> (tree: Tree)
        ensures
            tree@ == self@.state,
    {
        self.tree
    }

    /// The tree built so far.
    pub fn tree(&self) -> (tree: &Tree)
        ensures
            tree@ == self@.state,
    {
        &self.tree
    }
}

/// A node that is found again keeps its name, kind and tag, and takes the sizes,
/// flags and times that were found; no other node changes its values.
pub proof fn law_restated(s: State, new: State, id: NodeId, d: NodeData, x: NodeId)
    requires
        restated(s, new, id, d),
        s.live(x),
    ensures
        new.nodes[id as int]@.name == s.nodes[id as int]@.name,
        new.nodes[id as int].kind == s.nodes[id as int].kind,
        new.nodes[id as int].tag == s.nodes[id as int].tag,
        new.nodes[id as int].flags == d.flags,
        new.nodes[id as int].logical_size == d.logical_size,
        new.nodes[id as int].allocated_size == d.allocated_size,
        new.nodes[id as int].ads_size == d.ads_size,
        new.nodes[id as int].created == d.created,
        new.nodes[id as int].accessed == d.accessed,
        new.nodes[id as int].modified == d.modified,
        x != id ==> new.nodes[x as int].name == s.nodes[x as int].name && new.nodes[x as int].kind
            == s.nodes[x as int].kind && new.nodes[x as int].tag == s.nodes[x as int].tag,
        new.root == s.root,
        new.kids == s.kids,
{
}

/// A folder that is taken in is known under its path from then on, and nothing but
/// folders is; what names a folder that is not known is left out.
pub proof fn law_upserts(b: BuilderView, new: BuilderView, u: UpsertView, id: NodeId)
    requires
        b.upserted(new, u, id),
    ensures
        u.params.kind == NodeKind::Directory ==> new.dirs.dom().contains(paths::canonical(u.path))
            && new.dirs[paths::canonical(u.path)] == id,
        u.params.kind != NodeKind::Directory ==> new.dirs == b.dirs,
        new.orphans == b.orphans,
        u.parent_path is Some ==> b.dirs.dom().contains(paths::canonical(u.parent_path->0)),
        u.parent_path is None ==> new.state.root == Some(id),
{
}

} // verus!
