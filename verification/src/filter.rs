//! Filters over a tree.
//!
//! Conditions come in three groups. Masks, folder masks, tags and classes
//! include: if there are any, one of them must hold. The same conditions and
//! attributes with a `|` in front exclude: none of them may hold. Sizes, ages
//! and attributes must all hold.
use vstd::prelude::*;
use vstd::string::*;

use crate::filter_ast;
use crate::filter_ast::{
    AgeField, AttrTest, Condition, ConditionKind, ConditionView, FileClass, KindView, ParseWarning,
    SizeMetric, TagExpr, TagSet, WarningView,
};
use crate::filter_grammar;
use crate::filter_parse;
use crate::glob;
use crate::model::State;
use crate::node::{NodeData, NodeFlags, NodeKind, Tag};
use crate::text;
use crate::tree::Tree;
use crate::{FileTime, NodeId};

verus! {

/// What follows the last dot of a name.
pub open spec fn extension(name: Seq<char>) -> Option<Seq<char>>
    decreases name.len(),
{
    if name.len() == 0 {
        None
    } else if name.last() == '.' {
        Some(Seq::empty())
    } else {
        match extension(name.drop_last()) {
            Some(e) => Some(e.push(name.last())),
            None => None,
        }
    }
}

/// How many whole seconds lie between a timestamp and now. A timestamp in the
/// future has age 0.
pub open spec fn age_seconds(now: FileTime, ts: FileTime) -> int {
    let ticks = now - ts;
    if ticks <= 0 {
        0
    } else if ticks > i64::MAX {
        i64::MAX as int / 10_000_000
    } else {
        ticks / 10_000_000
    }
}

/// Whether a node or a node above it has a tag.
pub open spec fn tagged(s: State, id: NodeId, tag: Tag) -> bool {
    exists|x: NodeId|
        s.live(x) && #[trigger] s.within(id, x) && s.nodes[x as int].tag == Some(tag)
}

/// The tags of a node and of the nodes above it.
pub open spec fn tags_on(s: State, id: NodeId) -> spec_fn(Tag) -> bool {
    |t: Tag| tagged(s, id, t)
}

/// Whether a node is a directory whose name matches a pattern, or lies in one.
pub open spec fn in_folder(s: State, id: NodeId, pattern: Seq<char>) -> bool {
    exists|x: NodeId|
        s.live(x) && #[trigger] s.within(id, x) && s.nodes[x as int].kind == NodeKind::Directory
            && glob::glob(pattern, s.nodes[x as int].name@)
}

/// The timestamp that an age condition looks at.
pub open spec fn timestamp(d: NodeData, field: AgeField) -> FileTime {
    match field {
        AgeField::Creation => d.created,
        AgeField::Modify => d.modified,
        AgeField::Access => d.accessed,
    }
}

/// Whether attributes are as the tests ask.
pub open spec fn attrs_hold(tests: Seq<AttrTest>, flags: NodeFlags) -> bool {
    forall|i: int| 0 <= i < tests.len() ==> (#[trigger] tests[i]).holds(flags)
}

/// Whether an extension is one of a list, whatever its case.
pub open spec fn in_class(name: Seq<char>, extensions: Seq<Seq<char>>) -> bool {
    match extension(name) {
        Some(e) => e.len() > 0 && exists|i: int|
            0 <= i < extensions.len() && text::same_ascii(#[trigger] extensions[i], e),
        None => false,
    }
}

/// Whether what a condition tests is so of a node, leaving negation aside.
pub open spec fn holds(s: State, id: NodeId, kind: KindView, now: FileTime) -> bool {
    let d = s.nodes[id as int]@;
    match kind {
        KindView::FileMask { pattern, .. } => glob::glob(pattern, d.name),
        KindView::FolderMask { pattern, .. } => in_folder(s, id, pattern),
        KindView::Size { metric, op, bytes } => op.holds(
            match metric {
                SizeMetric::Disk => d.allocated_size as int,
                SizeMetric::Logical => d.logical_size as int,
            },
            bytes as int,
        ),
        KindView::Age { field, op, seconds } => op.holds(
            age_seconds(now, timestamp(d, field)),
            seconds as int,
        ),
        KindView::Tag { expr, .. } => expr.holds(tags_on(s, id)),
        KindView::Attr { tests, .. } => attrs_hold(tests, d.flags),
        KindView::Class { extensions, .. } => in_class(d.name, extensions),
    }
}

/// The three groups of conditions.
#[derive(Clone, Copy, PartialEq, Eq, Debug, Structural)]
pub enum Group {
    /// One of these must hold, if there are any.
    Inclusion,
    /// None of these may hold.
    Exclusion,
    /// All of these must hold.
    Demand,
}

/// Which group a condition belongs to.
pub open spec fn group(kind: KindView) -> Group {
    match kind {
        KindView::FileMask { negated, .. } => if negated {
            Group::Exclusion
        } else {
            Group::Inclusion
        },
        KindView::FolderMask { negated, .. } => if negated {
            Group::Exclusion
        } else {
            Group::Inclusion
        },
        KindView::Tag { negated, .. } => if negated {
            Group::Exclusion
        } else {
            Group::Inclusion
        },
        KindView::Class { negated, .. } => if negated {
            Group::Exclusion
        } else {
            Group::Inclusion
        },
        KindView::Attr { negated, .. } => if negated {
            Group::Exclusion
        } else {
            Group::Demand
        },
        KindView::Size { .. } => Group::Demand,
        KindView::Age { .. } => Group::Demand,
    }
}

/// Whether some condition includes.
pub open spec fn includes(conds: Seq<ConditionView>) -> bool {
    exists|i: int| 0 <= i < conds.len() && group((#[trigger] conds[i]).kind) == Group::Inclusion
}

/// Whether a node passes conditions.
pub open spec fn passes(
    conds: Seq<ConditionView>,
    s: State,
    id: NodeId,
    now: FileTime,
) -> bool {
    &&& forall|i: int|
        0 <= i < conds.len() && group((#[trigger] conds[i]).kind) == Group::Exclusion ==> !holds(
            s,
            id,
            conds[i].kind,
            now,
        )
    &&& forall|i: int|
        0 <= i < conds.len() && group((#[trigger] conds[i]).kind) == Group::Demand ==> holds(
            s,
            id,
            conds[i].kind,
            now,
        )
    &&& includes(conds) ==> exists|i: int|
        0 <= i < conds.len() && group((#[trigger] conds[i]).kind) == Group::Inclusion && holds(
            s,
            id,
            conds[i].kind,
            now,
        )
}

/// Whether something below a node passes conditions.
pub open spec fn passes_below(
    conds: Seq<ConditionView>,
    s: State,
    id: NodeId,
    now: FileTime,
) -> bool {
    exists|x: NodeId| #[trigger] s.within(x, id) && x != id && passes(conds, s, x, now)
}

/// What a filter makes of a node.
#[derive(Clone, Copy, PartialEq, Eq, Debug, Structural)]
pub enum FilterVerdict {
    /// The node passes.
    Visible,
    /// The node does not pass, but something below it does.
    Dimmed,
    /// Neither the node nor anything below it passes.
    Hidden,
}

/// What a filter makes of a node.
pub open spec fn verdict(
    conds: Seq<ConditionView>,
    s: State,
    id: NodeId,
    now: FileTime,
) -> FilterVerdict {
    if passes(conds, s, id, now) {
        FilterVerdict::Visible
    } else if passes_below(conds, s, id, now) {
        FilterVerdict::Dimmed
    } else {
        FilterVerdict::Hidden
    }
}

/// A filter in mathematical terms.
#[verifier::ext_equal]
pub struct FilterView {
    pub conditions: Seq<ConditionView>,
    pub warnings: Seq<WarningView>,
}

/// A parsed filter.
#[derive(Debug)]
pub struct Filter {
    conditions: Vec<Condition>,
    warnings: Vec<ParseWarning>,
}

impl View for Filter {
    type V = FilterView;

    closed spec fn view(&self) -> FilterView {
        FilterView {
            conditions: filter_parse::condition_views(self.conditions@),
            warnings: filter_parse::warning_views(self.warnings@),
        }
    }
}

impl Filter {
    /// Parses a filter string. The classes are what `:class:` can name; a piece
    /// of the string that is no condition gives a warning, never an error.
    pub fn parse(input: &str, classes: &[FileClass]) -> (filter: Self)
        ensures
            (filter@.conditions, filter@.warnings) == filter_grammar::parsed(
                input@,
                filter_ast::class_views(classes@),
            ),
    {
        let (conditions, warnings) = filter_parse::parse_filter(input, classes);
        Filter { conditions, warnings }
    }

    /// The filter that everything passes.
    pub fn empty() -> (filter: Self)
        ensures
            filter@.conditions == Seq::<ConditionView>::empty(),
            filter@.warnings == Seq::<WarningView>::empty(),
    {
        let filter = Filter { conditions: Vec::new(), warnings: Vec::new() };
        proof {
            assert(filter@.conditions =~= Seq::empty());
            assert(filter@.warnings =~= Seq::empty());
        }
        filter
    }

    /// The conditions in the order of the filter string.
    pub fn conditions(&self) -> (r: &[Condition])
        ensures
            filter_parse::condition_views(r@) == self@.conditions,
    {
        self.conditions.as_slice()
    }

    /// The warnings in the order of the filter string.
    pub fn warnings(&self) -> (r: &[ParseWarning])
        ensures
            filter_parse::warning_views(r@) == self@.warnings,
    {
        self.warnings.as_slice()
    }

    /// Whether there are no conditions, so that everything passes.
    pub fn is_empty(&self) -> (r: bool)
        ensures
            r == (self@.conditions.len() == 0),
    {
        self.conditions.len() == 0
    }

    /// Whether a node passes the filter.
    pub fn matches(&self, tree: &Tree, id: NodeId, now: FileTime) -> (r: bool)
        requires
            tree@.links(),
            tree@.live(id),
        ensures
            r == passes(self@.conditions, tree@, id, now),
    {
        let ghost conds = self@.conditions;
        let mut inclusion_seen = false;
        let mut inclusion_hit = false;
        for i in 0..self.conditions.len()
            invariant
                conds == filter_parse::condition_views(self.conditions@),
                tree@.links(),
                tree@.live(id),
                conds == self@.conditions,
                forall|j: int|
                    0 <= j < i && group((#[trigger] conds[j]).kind) == Group::Exclusion ==> !holds(
                        tree@,
                        id,
                        conds[j].kind,
                        now,
                    ),
                forall|j: int|
                    0 <= j < i && group((#[trigger] conds[j]).kind) == Group::Demand ==> holds(
                        tree@,
                        id,
                        conds[j].kind,
                        now,
                    ),
                inclusion_seen == exists|j: int|
                    0 <= j < i && group((#[trigger] conds[j]).kind) == Group::Inclusion,
                inclusion_hit == exists|j: int|
                    0 <= j < i && group((#[trigger] conds[j]).kind) == Group::Inclusion && holds(
                        tree@,
                        id,
                        conds[j].kind,
                        now,
                    ),
        {
            let kind = &self.conditions[i].kind;
            proof {
                assert(conds[i as int].kind == kind@);
            }
            match group_of(kind) {
                Group::Inclusion => {
                    inclusion_seen = true;
                    inclusion_hit = inclusion_hit || condition_matches(tree, id, kind, now);
                },
                Group::Exclusion => {
                    if condition_matches(tree, id, kind, now) {
                        return false;
                    }
                },
                Group::Demand => {
                    if !condition_matches(tree, id, kind, now) {
                        return false;
                    }
                },
            }
        }
        !inclusion_seen || inclusion_hit
    }
}

impl Default for Filter {
    fn default() -> (filter: Self)
        ensures
            filter@.conditions == Seq::<ConditionView>::empty(),
            filter@.warnings == Seq::<WarningView>::empty(),
    {
        Filter::empty()
    }
}

fn group_of(kind: &ConditionKind) -> (r: Group)
    ensures
        r == group(kind@),
{
    let negated = match kind {
        ConditionKind::FileMask { negated, .. } => *negated,
        ConditionKind::FolderMask { negated, .. } => *negated,
        ConditionKind::Tag { negated, .. } => *negated,
        ConditionKind::Class { negated, .. } => *negated,
        ConditionKind::Attr { negated, .. } => if *negated {
            true
        } else {
            return Group::Demand;
        },
        ConditionKind::Size { .. } => {
            return Group::Demand;
        },
        ConditionKind::Age { .. } => {
            return Group::Demand;
        },
    };
    if negated {
        Group::Exclusion
    } else {
        Group::Inclusion
    }
}

/// One step up: what lies above `c` is its parent or above that.
proof fn lemma_step_up(s: State, id: NodeId, c: NodeId)
    requires
        s.links(),
        s.live(id),
        s.live(c),
        s.within(id, c),
    ensures
        match s.nodes[c as int].parent {
            Some(q) => s.live(q) && s.within(id, q) && s.depth[c] == s.depth[q] + 1 && forall|
                x: NodeId,
            |
                s.live(x) && x != c && #[trigger] s.within(c, x) ==> s.within(q, x),
            None => forall|x: NodeId| s.live(x) && #[trigger] s.within(c, x) ==> x == c,
        },
{
    assert(s.node_ok(c));
    match s.nodes[c as int].parent {
        Some(q) => {
            s.lemma_parent(c, q);
            s.lemma_up_step(id, (s.depth[id] - s.depth[c]) as nat);
            assert(s.within(id, q));
            assert forall|x: NodeId| s.live(x) && x != c && #[trigger] s.within(c, x) implies s.within(
                q,
                x,
            ) by {
                s.lemma_within_parent(c, q, x);
            }
        },
        None => {},
    }
}

/// Whether a node is a directory whose name matches a pattern, or lies in one.
fn folder_matches(tree: &Tree, id: NodeId, pattern: &str) -> (r: bool)
    requires
        tree@.links(),
        tree@.live(id),
    ensures
        r == in_folder(tree@, id, pattern@),
{
    let ghost s = tree@;
    let mut cur: Option<NodeId> = Some(id);
    while cur.is_some()
        invariant
            s == tree@,
            s.links(),
            s.live(id),
            cur matches Some(c) ==> s.live(c) && s.within(id, c),
            forall|x: NodeId|
                s.live(x) && #[trigger] s.within(id, x) && s.nodes[x as int].kind
                    == NodeKind::Directory && glob::glob(pattern@, s.nodes[x as int].name@)
                    ==> cur is Some && s.within(cur->0, x),
        decreases (if cur is Some { s.depth[cur->0] + 1 } else { 0 }),
    {
        let c: NodeId = cur.unwrap();
        proof {
            assert(s.node_ok(c));
            lemma_step_up(s, id, c);
        }
        let n = tree.node(c);
        if n.is_dir() && glob::glob_match(pattern, n.name.as_str()) {
            return true;
        }
        cur = n.parent;
    }
    false
}

/// The tags of a node and of the nodes above it.
fn effective_tags(tree: &Tree, id: NodeId) -> (set: TagSet)
    requires
        tree@.links(),
        tree@.live(id),
    ensures
        set.wf(),
        forall|t: Tag| #[trigger] set.has(t) <==> tagged(tree@, id, t),
{
    let ghost s = tree@;
    let mut set = TagSet(TagSet::EMPTY);
    let mut cur: Option<NodeId> = Some(id);
    proof {
        assert forall|t: Tag| !#[trigger] set.has(t) by {
            assert(0u8 & 1 == 0 && 0u8 & 2 == 0 && 0u8 & 4 == 0 && 0u8 & 8 == 0) by (bit_vector);
        }
    }
    while cur.is_some()
        invariant
            s == tree@,
            s.links(),
            s.live(id),
            set.wf(),
            cur matches Some(c) ==> s.live(c) && s.within(id, c),
            forall|t: Tag| #[trigger] set.has(t) ==> tagged(s, id, t),
            forall|x: NodeId, t: Tag|
                s.live(x) && #[trigger] s.within(id, x) && s.nodes[x as int].tag == Some(t)
                    && !#[trigger] set.has(t) ==> cur is Some && s.within(cur->0, x),
        decreases (if cur is Some { s.depth[cur->0] + 1 } else { 0 }),
    {
        let c: NodeId = cur.unwrap();
        proof {
            assert(s.node_ok(c));
            lemma_step_up(s, id, c);
        }
        let n = tree.node(c);
        if let Some(tag) = n.tag {
            set.insert(tag);
            proof {
                assert(tagged(s, id, tag));
            }
        }
        cur = n.parent;
    }
    proof {
        assert forall|t: Tag| tagged(s, id, t) implies #[trigger] set.has(t) by {
            let x = choose|x: NodeId|
                s.live(x) && #[trigger] s.within(id, x) && s.nodes[x as int].tag == Some(t);
            assert(s.within(id, x));
        }
    }
    set
}

/// What follows the last dot of a name.
fn extension_of(name: &Vec<char>) -> (r: Option<Vec<char>>)
    ensures
        match r {
            Some(e) => extension(name@) == Some(e@),
            None => extension(name@) is None,
        },
{
    let mut i: usize = name.len();
    let ghost after = Seq::<char>::empty();
    proof {
        assert(name@.take(name@.len() as int) =~= name@);
        assert(name@.skip(name@.len() as int) =~= Seq::<char>::empty());
        if let Some(e) = extension(name@) {
            assert(e + name@.skip(name@.len() as int) =~= e);
        }
    }
    while i > 0 && name[i - 1] != '.'
        invariant
            i <= name@.len(),
            extension(name@) is Some == extension(name@.take(i as int)) is Some,
            extension(name@) is Some ==> extension(name@)->0 == extension(name@.take(i as int))->0
                + name@.skip(i as int),
        decreases i,
    {
        proof {
            let head = name@.take(i as int);
            assert(head.last() == name@[i - 1]);
            assert(head.drop_last() =~= name@.take(i - 1));
            if let Some(e) = extension(name@.take(i - 1)) {
                assert(e.push(name@[i - 1]) + name@.skip(i as int) =~= e + name@.skip(i - 1));
            }
        }
        i = i - 1;
    }
    if i == 0 {
        return None;
    }
    proof {
        let head = name@.take(i as int);
        assert(head.last() == '.');
        assert(Seq::<char>::empty() + name@.skip(i as int) =~= name@.subrange(
            i as int,
            name@.len() as int,
        ));
    }
    Some(text::part(name, i, name.len()))
}

/// Whether the extension of a name is one of a list, whatever its case.
pub(crate) fn class_matches(name: &str, extensions: &Vec<String>) -> (r: bool)
    ensures
        r == in_class(name@, text::texts(extensions@)),
{
    let chars = text::chars_of(name);
    let ghost all = text::texts(extensions@);
    match extension_of(&chars) {
        None => false,
        Some(e) => {
            if e.len() == 0 {
                return false;
            }
            for i in 0..extensions.len()
                invariant
                    all == text::texts(extensions@),
                    extension(name@) == Some(e@),
                    e@.len() > 0,
                    forall|j: int| 0 <= j < i ==> !text::same_ascii(#[trigger] all[j], e@),
            {
                if text::eq_ignore_ascii(&text::chars_of(extensions[i].as_str()), &e) {
                    proof {
                        assert(text::same_ascii(all[i as int], e@));
                    }
                    return true;
                }
            }
            false
        },
    }
}

/// How many whole seconds lie between a timestamp and now.
fn age_of(now: FileTime, ts: FileTime) -> (secs: u64)
    ensures
        secs == age_seconds(now, ts),
{
    let ticks: i128 = now as i128 - ts as i128;
    if ticks <= 0 {
        0
    } else if ticks > i64::MAX as i128 {
        i64::MAX as u64 / 10_000_000
    } else {
        ticks as u64 / 10_000_000
    }
}

/// Whether all the attribute tests hold.
fn attrs_match(tests: &Vec<AttrTest>, flags: NodeFlags) -> (r: bool)
    ensures
        r == attrs_hold(tests@, flags),
{
    for i in 0..tests.len()
        invariant
            forall|j: int| 0 <= j < i ==> (#[trigger] tests@[j]).holds(flags),
    {
        if !tests[i].matches(flags) {
            return false;
        }
    }
    true
}

/// Whether a node's tags and those above it meet an expression.
fn tags_match(tree: &Tree, id: NodeId, expr: &TagExpr) -> (r: bool)
    requires
        tree@.links(),
        tree@.live(id),
    ensures
        r == expr.holds(tags_on(tree@, id)),
{
    let set = effective_tags(tree, id);
    proof {
        let a = |t: Tag| set.has(t);
        assert(a =~= tags_on(tree@, id));
    }
    expr.matches(set)
}

/// Whether what a condition tests is so of a node, leaving negation aside.
fn condition_matches(tree: &Tree, id: NodeId, kind: &ConditionKind, now: FileTime) -> (r: bool)
    requires
        tree@.links(),
        tree@.live(id),
    ensures
        r == holds(tree@, id, kind@, now),
{
    proof {
        assert(tree@.node_ok(id));
    }
    let node = tree.node(id);
    match kind {
        ConditionKind::FileMask { pattern, .. } => glob::glob_match(
            pattern.as_str(),
            node.name.as_str(),
        ),
        ConditionKind::FolderMask { pattern, .. } => folder_matches(tree, id, pattern.as_str()),
        ConditionKind::Size { metric, op, bytes } => {
            let value: u64 = match metric {
                SizeMetric::Disk => node.allocated_size,
                SizeMetric::Logical => node.logical_size,
            };
            op.apply(value, *bytes)
        },
        ConditionKind::Age { field, op, seconds } => {
            let ts: FileTime = match field {
                AgeField::Creation => node.created,
                AgeField::Modify => node.modified,
                AgeField::Access => node.accessed,
            };
            op.apply(age_of(now, ts), *seconds)
        },
        ConditionKind::Tag { expr, .. } => tags_match(tree, id, expr),
        ConditionKind::Attr { tests, .. } => attrs_match(tests, node.flags),
        ConditionKind::Class { extensions, .. } => class_matches(node.name.as_str(), extensions),
    }
}

/// Whether something below a node passes the filter.
fn subtree_has_match(tree: &Tree, id: NodeId, filter: &Filter, now: FileTime) -> (r: bool)
    requires
        tree@.links(),
        tree@.live(id),
    ensures
        r == passes_below(filter@.conditions, tree@, id, now),
    decreases tree@.bound - tree@.depth[id],
{
    let ghost s = tree@;
    let ghost conds = filter@.conditions;
    let mut it = tree.children(id);
    let ghost mut n: int = 0;
    proof {
        assert(s.node_ok(id));
        s.lemma_within(id, id);
    }
    loop
        invariant
            s == tree@,
            conds == filter@.conditions,
            s.links(),
            s.live(id),
            s.node_ok(id),
            it.wf(),
            0 <= n <= s.kids[id].len(),
            it.rest() == s.kids[id].skip(n),
            forall|i: int, x: NodeId|
                0 <= i < n && #[trigger] s.within(x, #[trigger] s.kids[id][i]) ==> !passes(
                    conds,
                    s,
                    x,
                    now,
                ),
        decreases s.kids[id].len() - n,
    {
        match it.next() {
            None => {
                proof {
                    assert forall|x: NodeId| #[trigger] s.within(x, id) && x != id implies !passes(
                        conds,
                        s,
                        x,
                        now,
                    ) by {
                        s.lemma_within(x, id);
                        let i = choose|i: int|
                            0 <= i < s.kids[id].len() && s.within(x, #[trigger] s.kids[id][i]);
                        assert(s.within(x, s.kids[id][i]));
                    }
                }
                return false;
            },
            Some(c) => {
                proof {
                    assert(c == s.kids[id][n]);
                    assert(s.child_ok(id, n));
                    assert(s.node_ok(c));
                    s.lemma_within(c, c);
                    s.lemma_within(c, id);
                    assert(s.within(c, s.kids[id][n]));
                }
                if filter.matches(tree, c, now) {
                    return true;
                }
                if subtree_has_match(tree, c, filter, now) {
                    proof {
                        let x = choose|x: NodeId| #[trigger]
                            s.within(x, c) && x != c && passes(conds, s, x, now);
                        s.lemma_within(x, id);
                        assert(s.within(x, s.kids[id][n]));
                        assert(s.depth[x] >= s.depth[c]);
                    }
                    return true;
                }
                proof {
                    assert forall|i: int, x: NodeId|
                        0 <= i < n + 1 && #[trigger] s.within(
                            x,
                            #[trigger] s.kids[id][i],
                        ) implies !passes(conds, s, x, now) by {
                        if i == n && x != c {
                            assert(s.within(x, c));
                        }
                    }
                    assert(s.kids[id].skip(n).drop_first() =~= s.kids[id].skip(n + 1));
                    n = n + 1;
                }
            },
        }
    }
}

/// What a filter makes of a node. `now` is the time that ages are counted to.
pub fn evaluate(tree: &Tree, id: NodeId, filter: &Filter, now: FileTime) -> (r: FilterVerdict)
    requires
        tree@.links(),
        tree@.live(id),
    ensures
        r == verdict(filter@.conditions, tree@, id, now),
{
    if filter.matches(tree, id, now) {
        return FilterVerdict::Visible;
    }
    if subtree_has_match(tree, id, filter, now) {
        FilterVerdict::Dimmed
    } else {
        FilterVerdict::Hidden
    }
}

} // verus!
