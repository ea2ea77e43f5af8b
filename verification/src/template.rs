//! Text reports by templates.
//!
//! A template has three sections. The header and the footer are rendered once,
//! against the node the report starts at; the detail section is rendered for
//! each node, depth-first.
use vstd::prelude::*;
use vstd::string::*;

use crate::export;
use crate::export_error::{ExportError, TemplateError};
use crate::filter_grammar;
use crate::model::State;
use crate::node::NodeKind;
use crate::sizes;
use crate::sort;
use crate::sort::SortBy;
use crate::template_grammar;
use crate::template_grammar::{
    Counts, Mistake, Pad, Parts, Scene, MAX_IF_DEPTH, MAX_NEST_WIDTH, MAX_PAD_WIDTH,
};
use crate::text;
use crate::time;
use crate::tree::Tree;
use crate::visit;
use crate::visit::Visit;
use crate::{FileTime, NodeId};

verus! {

/// How siblings are grouped before they are sorted.
#[derive(Clone, Copy, PartialEq, Eq, Debug, Structural)]
pub enum BlockSort {
    /// What is no file first, then files.
    FoldersFirst,
    /// Files first.
    FilesFirst,
    /// No groups.
    Ungrouped,
}

impl Default for BlockSort {
    fn default() -> (b: Self)
        ensures
            b == BlockSort::FoldersFirst,
    {
        BlockSort::FoldersFirst
    }
}

/// What siblings are sorted by.
#[derive(Clone, Copy, PartialEq, Eq, Debug, Structural)]
pub enum SortField {
    /// The name, whatever its case.
    Name,
    /// The extension, whatever its case.
    Extension,
    /// The logical size.
    Size,
    /// The allocated size.
    DiskSize,
    /// The time of modification.
    ModifyDate,
}

impl Default for SortField {
    fn default() -> (f: Self)
        ensures
            f == SortField::Name,
    {
        SortField::Name
    }
}

/// A template in mathematical terms.
#[verifier::ext_equal]
pub struct TemplateView {
    pub name: Seq<char>,
    pub header: Seq<char>,
    pub detail: Seq<char>,
    pub footer: Seq<char>,
    pub block_sort: BlockSort,
    pub sort: SortField,
    pub descending: bool,
}

/// A named template with the order of its report.
#[derive(PartialEq, Eq, Debug)]
pub struct ExportTemplate {
    pub name: String,
    /// Rendered once at the top.
    pub header: String,
    /// Rendered for each node.
    pub detail: String,
    /// Rendered once at the bottom.
    pub footer: String,
    pub block_sort: BlockSort,
    pub sort: SortField,
    /// Whether the sorting inside groups is reversed.
    pub descending: bool,
}

impl View for ExportTemplate {
    type V = TemplateView;

    open spec fn view(&self) -> TemplateView {
        TemplateView {
            name: self.name@,
            header: self.header@,
            detail: self.detail@,
            footer: self.footer@,
            block_sort: self.block_sort,
            sort: self.sort,
            descending: self.descending,
        }
    }
}

impl Clone for ExportTemplate {
    fn clone(&self) -> (t: Self)
        ensures
            t@ == self@,
    {
        ExportTemplate {
            name: self.name.clone(),
            header: self.header.clone(),
            detail: self.detail.clone(),
            footer: self.footer.clone(),
            block_sort: self.block_sort,
            sort: self.sort,
            descending: self.descending,
        }
    }
}

/// What a report says about the view it was made of.
#[derive(Clone, Copy, Debug)]
pub struct TemplateContext<'a> {
    /// The filter of the view. It is stated in the report; nothing is left out
    /// of the report on its account.
    pub filter: Option<&'a str>,
    /// The time that ages are counted to.
    pub now: FileTime,
}

impl<'a> Default for TemplateContext<'a> {
    fn default() -> (c: Self)
        ensures
            c.filter is None,
            c.now == 0,
    {
        TemplateContext { filter: None, now: 0 }
    }
}

/// The template `Grouped by folder`.
pub open spec fn grouped_view() -> TemplateView {
    TemplateView {
        name: "Grouped by folder"@,
        header: "Grouped by folder report{&br}{&br}"@,
        detail: "{leftpad 12}<%size%> {nest 2}<%file%>{&br}"@,
        footer:
            "{&br}<%counter%> elements, <%foldercounter%> folders, <%filecounter%> files{&br}"@,
        block_sort: BlockSort::FoldersFirst,
        sort: SortField::Name,
        descending: false,
    }
}

/// The template `Plain list`.
pub open spec fn plain_view() -> TemplateView {
    TemplateView {
        name: "Plain list"@,
        header: "Path{&tab}Size (bytes){&tab}Size on disk (bytes){&br}"@,
        detail: "<%pathfile%>{&tab}<%sizebytes%>{&tab}<%disksizebytes%>{&br}"@,
        footer: Seq::empty(),
        block_sort: BlockSort::Ungrouped,
        sort: SortField::Name,
        descending: false,
    }
}

impl ExportTemplate {
    /// Sizes and names, indented by depth.
    pub fn grouped_by_folder() -> (t: Self)
        ensures
            t@ == grouped_view(),
    {
        ExportTemplate {
            name: "Grouped by folder".to_owned(),
            header: "Grouped by folder report{&br}{&br}".to_owned(),
            detail: "{leftpad 12}<%size%> {nest 2}<%file%>{&br}".to_owned(),
            footer:
                "{&br}<%counter%> elements, <%foldercounter%> folders, <%filecounter%> files{&br}".to_owned(),
            block_sort: BlockSort::FoldersFirst,
            sort: SortField::Name,
            descending: false,
        }
    }

    /// Paths and sizes.
    pub fn plain_list() -> (t: Self)
        ensures
            t@ == plain_view(),
    {
        let t = ExportTemplate {
            name: "Plain list".to_owned(),
            header: "Path{&tab}Size (bytes){&tab}Size on disk (bytes){&br}".to_owned(),
            detail: "<%pathfile%>{&tab}<%sizebytes%>{&tab}<%disksizebytes%>{&br}".to_owned(),
            footer: String::new(),
            block_sort: BlockSort::Ungrouped,
            sort: SortField::Name,
            descending: false,
        };
        proof {
            assert(t@ =~= plain_view());
        }
        t
    }
}

/// The templates that come with the library.
pub fn builtin_templates() -> (v: Vec<ExportTemplate>)
    ensures
        v@.len() == 2,
        v@[0]@ == grouped_view(),
        v@[1]@ == plain_view(),
{
    vec![ExportTemplate::grouped_by_folder(), ExportTemplate::plain_list()]
}

/// The template of a name among those that come with the library, whatever the
/// case of the letters.
pub fn find_builtin_template(name: &str) -> (r: Option<ExportTemplate>)
    ensures
        match r {
            Some(t) => if text::same_ascii("Grouped by folder"@, name@) {
                t@ == grouped_view()
            } else {
                text::same_ascii("Plain list"@, name@) && t@ == plain_view()
            },
            None => !text::same_ascii("Grouped by folder"@, name@) && !text::same_ascii(
                "Plain list"@,
                name@,
            ),
        },
{
    let wanted = text::chars_of(name);
    let grouped = ExportTemplate::grouped_by_folder();
    if text::eq_ignore_ascii(&text::chars_of(grouped.name.as_str()), &wanted) {
        return Some(grouped);
    }
    let plain = ExportTemplate::plain_list();
    if text::eq_ignore_ascii(&text::chars_of(plain.name.as_str()), &wanted) {
        return Some(plain);
    }
    None
}

/// What the order of siblings in a report depends on.
#[verifier::ext_equal]
pub struct ReportRank {
    pub block: int,
    pub number: nat,
    pub word: Seq<char>,
}

/// Whether a text comes no later than another in the order of character codes.
pub open spec fn text_le(a: Seq<char>, b: Seq<char>) -> bool
    decreases a.len(),
{
    if a.len() == 0 {
        true
    } else if b.len() == 0 {
        false
    } else if a[0] != b[0] {
        a[0] < b[0]
    } else {
        text_le(a.drop_first(), b.drop_first())
    }
}

/// Whether the sorted part of a rank comes no later than that of another.
pub open spec fn fine_le(a: ReportRank, b: ReportRank) -> bool {
    a.number < b.number || (a.number == b.number && text_le(a.word, b.word))
}

proof fn lemma_text_total(a: Seq<char>, b: Seq<char>)
    ensures
        text_le(a, b) || text_le(b, a),
    decreases a.len(),
{
    if a.len() > 0 && b.len() > 0 && a[0] == b[0] {
        lemma_text_total(a.drop_first(), b.drop_first());
    }
}

proof fn lemma_text_transitive(a: Seq<char>, b: Seq<char>, c: Seq<char>)
    requires
        text_le(a, b),
        text_le(b, c),
    ensures
        text_le(a, c),
    decreases a.len(),
{
    if a.len() > 0 && b.len() > 0 && c.len() > 0 && a[0] == b[0] && b[0] == c[0] {
        lemma_text_transitive(a.drop_first(), b.drop_first(), c.drop_first());
    }
}

fn text_at_most(a: &Vec<char>, b: &Vec<char>) -> (r: bool)
    ensures
        r == text_le(a@, b@),
{
    let mut i: usize = 0;
    proof {
        assert(a@.skip(0) =~= a@);
        assert(b@.skip(0) =~= b@);
    }
    while i < a.len()
        invariant
            i <= a@.len(),
            i <= b@.len(),
            text_le(a@, b@) == text_le(a@.skip(i as int), b@.skip(i as int)),
        decreases a@.len() - i,
    {
        proof {
            assert(a@.skip(i as int)[0] == a@[i as int]);
            assert(a@.skip(i as int).drop_first() =~= a@.skip(i + 1));
            if i < b@.len() {
                assert(b@.skip(i as int)[0] == b@[i as int]);
                assert(b@.skip(i as int).drop_first() =~= b@.skip(i + 1));
            }
        }
        if i >= b.len() {
            return false;
        }
        if a[i] != b[i] {
            return a[i] < b[i];
        }
        i = i + 1;
    }
    true
}

/// A key to sort siblings of a report by.
pub struct ReportKey {
    pub block: u8,
    pub number: u64,
    pub word: Vec<char>,
}

impl ReportKey {
    pub open spec fn view(&self) -> ReportRank {
        ReportRank { block: self.block as int, number: self.number as nat, word: self.word@ }
    }

    fn at_most(&self, other: &ReportKey) -> (r: bool)
        ensures
            r == fine_le(self@, other@),
    {
        self.number < other.number || (self.number == other.number && text_at_most(
            &self.word,
            &other.word,
        ))
    }
}

/// A key in ascending order.
pub struct Up(pub ReportKey);

impl SortBy for Up {
    type Rank = ReportRank;

    open spec fn rank(self) -> ReportRank {
        self.0@
    }

    open spec fn may_precede(a: ReportRank, b: ReportRank) -> bool {
        a.block < b.block || (a.block == b.block && fine_le(a, b))
    }

    proof fn law_total(a: ReportRank, b: ReportRank) {
        lemma_text_total(a.word, b.word);
    }

    proof fn law_transitive(a: ReportRank, b: ReportRank, c: ReportRank) {
        if text_le(a.word, b.word) && text_le(b.word, c.word) {
            lemma_text_transitive(a.word, b.word, c.word);
        }
    }

    fn precedes(&self, other: &Self) -> (r: bool) {
        self.0.block < other.0.block || (self.0.block == other.0.block && self.0.at_most(&other.0))
    }
}

/// A key in descending order.
pub struct Down(pub ReportKey);

impl SortBy for Down {
    type Rank = ReportRank;

    open spec fn rank(self) -> ReportRank {
        self.0@
    }

    open spec fn may_precede(a: ReportRank, b: ReportRank) -> bool {
        a.block < b.block || (a.block == b.block && fine_le(b, a))
    }

    proof fn law_total(a: ReportRank, b: ReportRank) {
        lemma_text_total(a.word, b.word);
    }

    proof fn law_transitive(a: ReportRank, b: ReportRank, c: ReportRank) {
        if text_le(b.word, a.word) && text_le(c.word, b.word) {
            lemma_text_transitive(c.word, b.word, a.word);
        }
    }

    fn precedes(&self, other: &Self) -> (r: bool) {
        self.0.block < other.0.block || (self.0.block == other.0.block && other.0.at_most(&self.0))
    }
}

/// The group of a node.
pub open spec fn block_of(kind: NodeKind, b: BlockSort) -> int {
    match b {
        BlockSort::Ungrouped => 0,
        BlockSort::FoldersFirst => if template_grammar::file_kind(kind) {
            1
        } else {
            0
        },
        BlockSort::FilesFirst => if template_grammar::file_kind(kind) {
            0
        } else {
            1
        },
    }
}

/// The rank of a node among its siblings.
pub open spec fn rank_of(s: State, id: NodeId, b: BlockSort, field: SortField) -> ReportRank {
    let n = s.nodes[id as int];
    ReportRank {
        block: block_of(n.kind, b),
        number: match field {
            SortField::Name => 0,
            SortField::Extension => 0,
            SortField::Size => n.agg_logical as nat,
            SortField::DiskSize => n.agg_allocated as nat,
            SortField::ModifyDate => if n.modified < 0 {
                0
            } else {
                n.modified as nat
            },
        },
        word: match field {
            SortField::Name => text::lower(n.name@),
            SortField::Extension => text::lower(template_grammar::extension(n.name@)),
            _ => Seq::empty(),
        },
    }
}

/// The ranks of children.
pub open spec fn ranks_of(s: State, ids: Seq<NodeId>, b: BlockSort, field: SortField) -> Seq<
    ReportRank,
> {
    Seq::new(ids.len(), |i: int| rank_of(s, ids[i], b, field))
}

/// The children of each node in the order of a template; equal ones keep their
/// order.
pub open spec fn by_template(s: State, t: TemplateView) -> spec_fn(NodeId) -> Seq<NodeId> {
    |p: NodeId|
        {
            let ranks = ranks_of(s, s.kids[p], t.block_sort, t.sort);
            export::arranged(
                s.kids[p],
                if t.descending {
                    sort::ranks::<Down>(ranks)
                } else {
                    sort::ranks::<Up>(ranks)
                },
            )
        }
}

proof fn lemma_by_template(s: State, t: TemplateView)
    requires
        s.links(),
    ensures
        visit::arranges(s, by_template(s, t)),
{
    assert forall|p: NodeId| #[trigger] s.live(p) implies by_template(s, t)(p).no_duplicates()
        && forall|x: NodeId| #[trigger]
        by_template(s, t)(p).contains(x) <==> s.kids[p].contains(x) by {
        assert(s.node_ok(p));
        let ranks = ranks_of(s, s.kids[p], t.block_sort, t.sort);
        if t.descending {
            sort::lemma_ranks::<Down>(ranks);
            export::lemma_arranged(s.kids[p], sort::ranks::<Down>(ranks));
        } else {
            sort::lemma_ranks::<Up>(ranks);
            export::lemma_arranged(s.kids[p], sort::ranks::<Up>(ranks));
        }
    }
}

pub fn is_file_kind(kind: NodeKind) -> (r: bool)
    ensures
        r == template_grammar::file_kind(kind),
{
    kind == NodeKind::File || kind == NodeKind::Ads
}

pub fn is_folder_kind(kind: NodeKind) -> (r: bool)
    ensures
        r == template_grammar::folder_kind(kind),
{
    kind == NodeKind::Directory
}

pub fn is_container_kind(kind: NodeKind) -> (r: bool)
    ensures
        r == template_grammar::container_kind(kind),
{
    kind == NodeKind::FreeSpace || kind == NodeKind::UnknownSpace || kind == NodeKind::Unaccessible
}

/// Where the part after the last slash before `hi` starts.
fn slash_end(s: &Vec<char>, hi: usize) -> (lo: usize)
    requires
        hi <= s@.len(),
    ensures
        lo <= hi,
        template_grammar::after_slash(s@.take(hi as int)) == s@.subrange(lo as int, hi as int),
        lo > 0 ==> s@[lo - 1] == '/',
{
    let mut lo: usize = hi;
    proof {
        assert(template_grammar::after_slash(s@.take(hi as int))
            =~= template_grammar::after_slash(s@.take(hi as int)) + s@.subrange(
            hi as int,
            hi as int,
        ));
    }
    while lo > 0 && s[lo - 1] != '/'
        invariant
            lo <= hi <= s@.len(),
            template_grammar::after_slash(s@.take(hi as int)) == template_grammar::after_slash(
                s@.take(lo as int),
            ) + s@.subrange(lo as int, hi as int),
        decreases lo,
    {
        proof {
            let head = s@.take(lo as int);
            assert(head.last() == s@[lo - 1]);
            assert(head.drop_last() =~= s@.take(lo - 1));
            assert(template_grammar::after_slash(s@.take(lo - 1)).push(s@[lo - 1]) + s@.subrange(
                lo as int,
                hi as int,
            ) =~= template_grammar::after_slash(s@.take(lo - 1)) + s@.subrange(
                lo - 1,
                hi as int,
            ));
        }
        lo = lo - 1;
    }
    proof {
        if lo > 0 {
            assert(s@.take(lo as int).last() == '/');
        }
        assert(Seq::<char>::empty() + s@.subrange(lo as int, hi as int) =~= s@.subrange(
            lo as int,
            hi as int,
        ));
    }
    lo
}

/// The last part of a path that is a name.
fn file_part(s: &Vec<char>) -> (r: Vec<char>)
    ensures
        r@ == template_grammar::file_part(s@),
{
    let mut hi: usize = s.len();
    proof {
        assert(s@.take(s@.len() as int) =~= s@);
    }
    loop
        invariant
            hi <= s@.len(),
            template_grammar::file_part(s@) == template_grammar::file_part(s@.take(hi as int)),
        decreases hi,
    {
        let lo: usize = slash_end(s, hi);
        let part = text::part(s, lo, hi);
        if lo == 0 {
            return part;
        }
        proof {
            let path = s@.take(hi as int);
            assert(path.len() - part@.len() - 1 == lo - 1);
            assert(path.take(lo - 1) =~= s@.take(lo - 1));
        }
        if part.len() == 0 || (part.len() == 1 && part[0] == '.') {
            proof {
                if part@.len() == 1 {
                    assert(part@ =~= seq!['.']);
                }
            }
            hi = lo - 1;
        } else {
            proof {
                assert(part@ != seq!['.']) by {
                    if part@ == seq!['.'] {
                        assert(part@[0] == '.');
                    }
                }
            }
            return part;
        }
    }
}

/// The extension of a name without its dot.
fn extension_of(name: &Vec<char>) -> (r: Vec<char>)
    ensures
        r@ == template_grammar::extension(name@),
{
    let f = file_part(name);
    let dots = f.len() == 2 && f[0] == '.' && f[1] == '.';
    proof {
        if dots {
            assert(f@ =~= seq!['.', '.']);
        } else if f@ == seq!['.', '.'] {
            assert(f@[0] == '.' && f@[1] == '.');
        }
    }
    let mut i: usize = f.len();
    proof {
        assert(f@.take(f@.len() as int) =~= f@);
    }
    while i > 0 && f[i - 1] != '.'
        invariant
            i <= f@.len(),
            template_grammar::last_dot(f@) == template_grammar::last_dot(f@.take(i as int)),
        decreases i,
    {
        proof {
            assert(f@.take(i as int).last() == f@[i - 1]);
            assert(f@.take(i as int).drop_last() =~= f@.take(i - 1));
        }
        i = i - 1;
    }
    proof {
        if i > 0 {
            assert(f@.take(i as int).last() == '.');
            assert(f@.skip(i as int) =~= f@.subrange(i as int, f@.len() as int));
        }
    }
    if dots || i <= 1 {
        let none: Vec<char> = Vec::new();
        proof {
            assert(none@ =~= Seq::empty());
        }
        none
    } else {
        text::part(&f, i, f.len())
    }
}

/// The key of a node among its siblings.
fn key_of(tree: &Tree, id: NodeId, b: BlockSort, field: SortField) -> (key: ReportKey)
    requires
        id < tree@.nodes.len(),
    ensures
        key@ == rank_of(tree@, id, b, field),
{
    let n = tree.node(id);
    let file = is_file_kind(n.kind);
    let block: u8 = match b {
        BlockSort::Ungrouped => 0,
        BlockSort::FoldersFirst => if file {
            1
        } else {
            0
        },
        BlockSort::FilesFirst => if file {
            0
        } else {
            1
        },
    };
    let number: u64 = match field {
        SortField::Name => 0,
        SortField::Extension => 0,
        SortField::Size => n.agg_logical,
        SortField::DiskSize => n.agg_allocated,
        SortField::ModifyDate => if n.modified < 0 {
            0
        } else {
            n.modified as u64
        },
    };
    let chars = text::chars_of(n.name.as_str());
    let word = match field {
        SortField::Name => text::lowered(&chars),
        SortField::Extension => text::lowered(&extension_of(&chars)),
        _ => {
            let none: Vec<char> = Vec::new();
            proof {
                assert(none@ =~= Seq::empty());
            }
            none
        },
    };
    ReportKey { block, number, word }
}

/// The children of a node in ascending order.
fn children_up(tree: &Tree, ids: &Vec<NodeId>, b: BlockSort, field: SortField) -> (out: Vec<NodeId>)
    requires
        forall|i: int| 0 <= i < ids@.len() ==> (#[trigger] ids@[i]) < tree@.nodes.len(),
    ensures
        out@ == export::arranged(ids@, sort::ranks::<Up>(ranks_of(tree@, ids@, b, field))),
{
    let mut keys: Vec<Up> = Vec::new();
    for i in 0..ids.len()
        invariant
            forall|i: int| 0 <= i < ids@.len() ==> (#[trigger] ids@[i]) < tree@.nodes.len(),
            keys@.len() == i,
            forall|j: int|
                0 <= j < i ==> (#[trigger] keys@[j]).0@ == rank_of(tree@, ids@[j], b, field),
    {
        keys.push(Up(key_of(tree, ids[i], b, field)));
    }
    proof {
        assert(sort::ranked(keys@) =~= ranks_of(tree@, ids@, b, field));
        sort::lemma_ranks::<Up>(sort::ranked(keys@));
    }
    let order = sort::sorted_positions(&keys);
    proof {
        assert forall|i: int| 0 <= i < order@.len() implies (#[trigger] order@[i]) < ids@.len() by {
            assert(sort::ints(order@)[i] == sort::ranks::<Up>(sort::ranked(keys@))[i]);
        }
    }
    export::arrange(ids, &order)
}

/// The children of a node in descending order.
fn children_down(tree: &Tree, ids: &Vec<NodeId>, b: BlockSort, field: SortField) -> (out: Vec<
    NodeId,
>)
    requires
        forall|i: int| 0 <= i < ids@.len() ==> (#[trigger] ids@[i]) < tree@.nodes.len(),
    ensures
        out@ == export::arranged(ids@, sort::ranks::<Down>(ranks_of(tree@, ids@, b, field))),
{
    let mut keys: Vec<Down> = Vec::new();
    for i in 0..ids.len()
        invariant
            forall|i: int| 0 <= i < ids@.len() ==> (#[trigger] ids@[i]) < tree@.nodes.len(),
            keys@.len() == i,
            forall|j: int|
                0 <= j < i ==> (#[trigger] keys@[j]).0@ == rank_of(tree@, ids@[j], b, field),
    {
        keys.push(Down(key_of(tree, ids[i], b, field)));
    }
    proof {
        assert(sort::ranked(keys@) =~= ranks_of(tree@, ids@, b, field));
        sort::lemma_ranks::<Down>(sort::ranked(keys@));
    }
    let order = sort::sorted_positions(&keys);
    proof {
        assert forall|i: int| 0 <= i < order@.len() implies (#[trigger] order@[i]) < ids@.len() by {
            assert(sort::ints(order@)[i] == sort::ranks::<Down>(sort::ranked(keys@))[i]);
        }
    }
    export::arrange(ids, &order)
}

/// The children of a node in the order of a template; equal ones keep their
/// order.
fn ordered_children(tree: &Tree, parent: NodeId, template: &ExportTemplate) -> (out: Vec<NodeId>)
    requires
        tree@.links(),
        tree@.live(parent),
    ensures
        out@ == by_template(tree@, template@)(parent),
{
    let ids = tree.children(parent).collect();
    proof {
        assert(tree@.node_ok(parent));
        assert forall|i: int| 0 <= i < ids@.len() implies (#[trigger] ids@[i])
            < tree@.nodes.len() by {
            assert(tree@.child_ok(parent, i));
            assert(tree@.node_ok(ids@[i]));
        }
    }
    if template.descending {
        children_down(tree, &ids, template.block_sort, template.sort)
    } else {
        children_up(tree, &ids, template.block_sort, template.sort)
    }
}

/// The running counts of a report.
struct Counters {
    element: u64,
    file: u64,
    folder: u64,
}

/// The counts with one more node.
pub open spec fn counted(c: Counts, kind: NodeKind) -> Counts {
    Counts {
        element: c.element + 1,
        file: if template_grammar::file_kind(kind) {
            c.file + 1
        } else {
            c.file
        },
        folder: if template_grammar::folder_kind(kind) {
            c.folder + 1
        } else {
            c.folder
        },
    }
}

impl View for Counters {
    type V = Counts;

    closed spec fn view(&self) -> Counts {
        Counts {
            element: self.element as nat,
            file: self.file as nat,
            folder: self.folder as nat,
        }
    }
}

impl Counters {
    fn count_node(&mut self, kind: NodeKind)
        requires
            old(self).element < u64::MAX,
            old(self).file <= old(self).element,
            old(self).folder <= old(self).element,
        ensures
            final(self)@ == counted(old(self)@, kind),
            final(self).element == old(self).element + 1,
            final(self).file <= final(self).element,
            final(self).folder <= final(self).element,
    {
        self.element = self.element + 1;
        if is_file_kind(kind) {
            self.file = self.file + 1;
        }
        if is_folder_kind(kind) {
            self.folder = self.folder + 1;
        }
    }
}

/// What renders the sections of a report.
struct Renderer<'a> {
    tree: &'a Tree,
    /// The node that the report starts at.
    root: NodeId,
    now: FileTime,
    counters: Counters,
}

/// A pad command that waits for its placeholder.
#[derive(Clone, Copy)]
struct PendingPad {
    right: bool,
    width: usize,
    start: usize,
    end: usize,
}

spec fn pad_view(p: PendingPad) -> Pad {
    Pad { right: p.right, width: p.width as nat, start: p.start as nat, end: p.end as nat }
}

spec fn pads_view(p: Option<PendingPad>) -> Option<Pad> {
    match p {
        None => None,
        Some(p) => Some(pad_view(p)),
    }
}

/// A result in mathematical terms.
spec fn result_view(r: Result<String, TemplateError>, section: Seq<char>) -> Result<
    Seq<char>,
    Mistake,
>
    recommends
        r matches Err(e) ==> template_grammar::section_of(e) == section,
{
    match r {
        Ok(t) => Ok(t@),
        Err(e) => Err(template_grammar::mistake(e)),
    }
}

/// The bytes of the characters from `a` up to `b` of a text.
fn span_of(s: &Vec<char>, a: usize, b: usize) -> (r: std::ops::Range<usize>)
    requires
        a <= b <= s@.len(),
        text::byte_len(s@) <= usize::MAX,
    ensures
        r == template_grammar::span(s@, a as nat, b as nat),
{
    proof {
        assert(s@.take(a as int) =~= s@.subrange(0, a as int));
        assert(s@.take(b as int) =~= s@.subrange(0, b as int));
    }
    let start: usize = text::width_of(s, 0, a);
    let end: usize = text::width_of(s, 0, b);
    start..end
}

/// Whether two characters stand at `i`.
fn two_at(s: &Vec<char>, i: usize, to: usize, a: char, b: char) -> (r: bool)
    requires
        i < to <= s@.len(),
    ensures
        r == template_grammar::stands_at(s@, i as nat, to as nat, seq![a, b]),
{
    if to - i >= 2 && s[i] == a && s[i + 1] == b {
        proof {
            assert(s@.subrange(i as int, i + 2) =~= seq![a, b]);
        }
        true
    } else {
        proof {
            if i + 2 <= to && s@.subrange(i as int, i + 2) == seq![a, b] {
                assert(s@.subrange(i as int, i + 2)[0] == a);
                assert(s@.subrange(i as int, i + 2)[1] == b);
            }
        }
        false
    }
}

/// The first place from `from` on where two characters stand.
fn find_two(s: &Vec<char>, from: usize, to: usize, a: char, b: char) -> (r: Option<usize>)
    requires
        from <= to <= s@.len(),
    ensures
        match r {
            Some(j) => template_grammar::next_at(s@, from as nat, to as nat, seq![a, b]) == Some(
                j as nat,
            ),
            None => template_grammar::next_at(s@, from as nat, to as nat, seq![a, b]) is None,
        },
{
    let mut i: usize = from;
    while i < to
        invariant
            from <= i <= to <= s@.len(),
            template_grammar::next_at(s@, from as nat, to as nat, seq![a, b])
                == template_grammar::next_at(s@, i as nat, to as nat, seq![a, b]),
        decreases to - i,
    {
        if two_at(s, i, to, a, b) {
            return Some(i);
        }
        i = i + 1;
    }
    None
}

/// The first place from `from` on where a closing brace stands.
fn find_brace(s: &Vec<char>, from: usize, to: usize) -> (r: Option<usize>)
    requires
        from <= to <= s@.len(),
    ensures
        match r {
            Some(j) => template_grammar::next_at(s@, from as nat, to as nat, seq!['}']) == Some(
                j as nat,
            ),
            None => template_grammar::next_at(s@, from as nat, to as nat, seq!['}']) is None,
        },
{
    let mut i: usize = from;
    while i < to
        invariant
            from <= i <= to <= s@.len(),
            template_grammar::next_at(s@, from as nat, to as nat, seq!['}'])
                == template_grammar::next_at(s@, i as nat, to as nat, seq!['}']),
        decreases to - i,
    {
        proof {
            assert(s@.subrange(i as int, i + 1) =~= seq![s@[i as int]]);
            assert(seq![s@[i as int]][0] == s@[i as int]);
            assert(seq!['}'][0] == '}');
        }
        if s[i] == '}' {
            return Some(i);
        }
        i = i + 1;
    }
    None
}

/// Where the word at the start of a text ends.
fn word_end(s: &Vec<char>) -> (n: usize)
    ensures
        n == template_grammar::word_len(s@),
        n <= s@.len(),
{
    let mut n: usize = 0;
    proof {
        assert(s@.skip(0) =~= s@);
    }
    while n < s.len() && !text::space(s[n])
        invariant
            n <= s@.len(),
            template_grammar::word_len(s@) == n + template_grammar::word_len(s@.skip(n as int)),
        decreases s@.len() - n,
    {
        proof {
            assert(s@.skip(n as int)[0] == s@[n as int]);
            assert(s@.skip(n as int).drop_first() =~= s@.skip(n + 1));
        }
        n = n + 1;
    }
    proof {
        if n < s@.len() {
            assert(s@.skip(n as int)[0] == s@[n as int]);
        }
    }
    n
}

/// The first word of a text.
fn first_word(s: &Vec<char>) -> (r: Vec<char>)
    ensures
        r@ == template_grammar::first_word(s@),
{
    let t = text::trimmed_start(s);
    let n: usize = word_end(&t);
    proof {
        assert(t@.subrange(0, n as int) =~= t@.take(n as int));
    }
    text::part(&t, 0, n)
}

/// The second word of a text.
fn second_word(s: &Vec<char>) -> (r: Option<Vec<char>>)
    ensures
        match r {
            Some(w) => template_grammar::second_word(s@) == Some(w@),
            None => template_grammar::second_word(s@) is None,
        },
{
    let t = text::trimmed_start(s);
    let n: usize = word_end(&t);
    proof {
        assert(t@.subrange(n as int, t@.len() as int) =~= t@.skip(n as int));
    }
    let w = first_word(&text::part(&t, n, t.len()));
    if w.len() == 0 {
        None
    } else {
        Some(w)
    }
}

proof fn lemma_number_grows(s: Seq<char>, n: int)
    requires
        0 <= n <= s.len(),
    ensures
        filter_grammar::number(s.take(n)) <= filter_grammar::number(s),
    decreases s.len(),
{
    if n < s.len() {
        assert(s.drop_last().take(n) =~= s.take(n));
        lemma_number_grows(s.drop_last(), n);
    } else {
        assert(s.take(n) =~= s);
    }
}

/// The number that a text of digits stands for, perhaps with a plus in front.
fn whole_number(s: &Vec<char>) -> (r: Option<usize>)
    ensures
        match r {
            Some(n) => template_grammar::whole_number(s@) == Some(n as nat),
            None => template_grammar::whole_number(s@) is None,
        },
{
    let from: usize = if s.len() > 0 && s[0] == '+' {
        1
    } else {
        0
    };
    let digits = text::part(s, from, s.len());
    proof {
        if from == 1 {
            assert(digits@ =~= s@.drop_first());
        } else {
            assert(digits@ =~= s@);
        }
    }
    if digits.len() == 0 {
        return None;
    }
    let mut n: usize = 0;
    for i in 0..digits.len()
        invariant
            n == filter_grammar::number(digits@.take(i as int)),
            forall|j: int| 0 <= j < i ==> '0' <= #[trigger] digits@[j] <= '9',
            digits@.len() > 0,
            digits@ == template_grammar::unsigned(s@),
    {
        if digits[i] < '0' || digits[i] > '9' {
            proof {
                assert(!('0' <= digits@[i as int] <= '9'));
            }
            return None;
        }
        proof {
            assert(digits@.take(i + 1).drop_last() =~= digits@.take(i as int));
            assert(digits@.take(i + 1).last() == digits@[i as int]);
            lemma_number_grows(digits@, i + 1);
        }
        let d: usize = digits[i] as usize - '0' as usize;
        let tenfold: usize = match n.checked_mul(10) {
            Some(t) => t,
            None => {
                return None;
            },
        };
        n = match tenfold.checked_add(d) {
            Some(t) => t,
            None => {
                return None;
            },
        };
    }
    proof {
        assert(digits@.take(digits@.len() as int) =~= digits@);
    }
    Some(n)
}

/// A text with something before and after it.
fn around(before: &str, word: &Vec<char>, after: &str) -> (s: String)
    ensures
        s@ == before@ + word@ + after@,
{
    let mut s: String = before.to_owned();
    s.append(text::text_of(word).as_str());
    s.append(after);
    s
}

/// The message on a width beyond a limit.
fn too_wide(n: usize, limit: usize) -> (s: String)
    ensures
        s@ == "width "@ + text::dec(n as nat) + " exceeds the cap of "@ + text::dec(limit as nat),
{
    let mut s: String = "width ".to_owned();
    text::push_decimal(&mut s, n as u64);
    s.append(" exceeds the cap of ");
    text::push_decimal(&mut s, limit as u64);
    s
}

/// A width in mathematical terms.
spec fn width_view(r: Result<usize, String>) -> Result<nat, Seq<char>> {
    match r {
        Ok(n) => Ok(n as nat),
        Err(m) => Err(m@),
    }
}

/// The width of a pad command, or what is wrong with it.
fn pad_width(arg: Option<Vec<char>>) -> (r: Result<usize, String>)
    ensures
        width_view(r) == template_grammar::pad_width(
            match arg {
                Some(w) => Some(w@),
                None => None,
            },
        ),
{
    match arg {
        None => Err("missing width argument".to_owned()),
        Some(w) => match whole_number(&w) {
            None => Err(around("`", &w, "` is not a non-negative integer")),
            Some(n) => if n > MAX_PAD_WIDTH {
                Err(too_wide(n, MAX_PAD_WIDTH))
            } else {
                Ok(n)
            },
        },
    }
}

/// The spaces for each level of a nest command, or what is wrong with it.
fn nest_width(arg: Option<Vec<char>>) -> (r: Result<usize, String>)
    ensures
        width_view(r) == template_grammar::nest_width(
            match arg {
                Some(w) => Some(w@),
                None => None,
            },
        ),
        r matches Ok(n) ==> n <= MAX_NEST_WIDTH,
{
    match arg {
        None => Ok(2),
        Some(w) => match whole_number(&w) {
            None => Err(around("`", &w, "` is not a non-negative integer")),
            Some(n) => if n > MAX_NEST_WIDTH {
                Err(too_wide(n, MAX_NEST_WIDTH))
            } else {
                Ok(n)
            },
        },
    }
}

/// Appends spaces.
fn push_spaces(s: &mut String, n: u64)
    ensures
        final(s)@ == old(s)@ + template_grammar::spaces(n as nat),
{
    let ghost before = s@;
    let mut i: u64 = 0;
    proof {
        assert(s@ =~= before + template_grammar::spaces(0));
    }
    while i < n
        invariant
            i <= n,
            s@ == before + template_grammar::spaces(i as nat),
        decreases n - i,
    {
        s.push(' ');
        proof {
            assert(s@ =~= before + template_grammar::spaces((i + 1) as nat));
        }
        i = i + 1;
    }
}

/// A value brought to the width of a pad.
fn apply_pad(value: String, pad: &Option<PendingPad>) -> (s: String)
    ensures
        s@ == template_grammar::padded(value@, pads_view(*pad)),
{
    match pad {
        None => value,
        Some(p) => {
            let width: usize = value.as_str().unicode_len();
            if width >= p.width {
                return value;
            }
            let missing: u64 = (p.width - width) as u64;
            let mut s: String = String::new();
            if p.right {
                s.append(value.as_str());
                push_spaces(&mut s, missing);
            } else {
                push_spaces(&mut s, missing);
                s.append(value.as_str());
            }
            proof {
                assert(s@ =~= template_grammar::padded(value@, pads_view(*pad)));
            }
            s
        },
    }
}

fn bool_str(b: bool) -> (s: String)
    ensures
        s@ == template_grammar::digit_of(b),
{
    if b {
        "1".to_owned()
    } else {
        "0".to_owned()
    }
}

fn pad_name(right: bool) -> (s: &'static str)
    ensures
        s@ == template_grammar::pad_name(right),
{
    if right {
        "rightpad"
    } else {
        "leftpad"
    }
}

/// The mistake of a pad that no placeholder follows.
fn dangling(s: &Vec<char>, p: &PendingPad, section: &'static str) -> (e: TemplateError)
    requires
        p.start <= p.end <= s@.len(),
        text::byte_len(s@) <= usize::MAX,
    ensures
        template_grammar::mistake(e) == template_grammar::dangling(s@, pad_view(*p)),
        template_grammar::section_of(e) == section@,
{
    TemplateError::DanglingPad {
        command: pad_name(p.right),
        section,
        span: span_of(s, p.start, p.end),
    }
}

/// Where the parts of an `{if}` block lie.
struct ConditionalParts {
    other: Option<(usize, usize)>,
    end: (usize, usize),
}

spec fn pair_view(p: Option<(usize, usize)>) -> Option<(nat, nat)> {
    match p {
        Some(o) => Some((o.0 as nat, o.1 as nat)),
        None => None,
    }
}

/// The parts of the block whose `{if}` ends before `from`.
fn find_conditional_parts(
    s: &Vec<char>,
    from: usize,
    to: usize,
    section: &'static str,
    opening: (usize, usize),
) -> (r: Result<ConditionalParts, TemplateError>)
    requires
        from <= to <= s@.len(),
        opening.0 <= opening.1 <= s@.len(),
        text::byte_len(s@) <= usize::MAX,
    ensures
        match r {
            Ok(p) => template_grammar::parts_from(
                s@,
                from as nat,
                to as nat,
                0,
                None,
                template_grammar::span(s@, opening.0 as nat, opening.1 as nat),
            ) == Ok::<Parts, Mistake>(
                Parts { other: pair_view(p.other), end: (p.end.0 as nat, p.end.1 as nat) },
            ),
            Err(e) => template_grammar::section_of(e) == section@
                && template_grammar::parts_from(
                s@,
                from as nat,
                to as nat,
                0,
                None,
                template_grammar::span(s@, opening.0 as nat, opening.1 as nat),
            ) == Err::<Parts, Mistake>(template_grammar::mistake(e)),
        },
{
    let ghost open = template_grammar::span(s@, opening.0 as nat, opening.1 as nat);
    let ghost goal = template_grammar::parts_from(s@, from as nat, to as nat, 0, None, open);
    let mut depth: usize = 0;
    let mut other: Option<(usize, usize)> = None;
    let mut k: usize = from;
    while k < to
        invariant
            from <= k <= to <= s@.len(),
            opening.0 <= opening.1 <= s@.len(),
            text::byte_len(s@) <= usize::MAX,
            open == template_grammar::span(s@, opening.0 as nat, opening.1 as nat),
            depth <= k,
            goal == template_grammar::parts_from(s@, from as nat, to as nat, 0, None, open),
            goal == template_grammar::parts_from(
                s@,
                k as nat,
                to as nat,
                depth as nat,
                pair_view(other),
                open,
            ),
        decreases to - k,
    {
        if s[k] != '{' {
            k = k + 1;
        } else if to - k >= 2 && s[k + 1] == '{' {
            k = k + 2;
        } else {
            proof {
                template_grammar::lemma_next_at(s@, (k + 1) as nat, to as nat, seq!['}']);
            }
            match find_brace(s, k + 1, to) {
                None => {
                    return Err(
                        TemplateError::UnterminatedCommand {
                            section,
                            span: span_of(s, k, s.len()),
                        },
                    );
                },
                Some(j) => {
                    let head = first_word(&text::part(s, k + 1, j));
                    if text::is_text(&head, "if") {
                        depth = depth + 1;
                    } else if text::is_text(&head, "endif") {
                        if depth == 0 {
                            return Ok(ConditionalParts { other, end: (k, j + 1) });
                        }
                        depth = depth - 1;
                    } else if text::is_text(&head, "else") && depth == 0 && other.is_none() {
                        other = Some((k, j + 1));
                    }
                    k = j + 1;
                },
            }
        }
    }
    Err(TemplateError::MissingEndif { section, span: span_of(s, opening.0, opening.1) })
}

/// The condition of an `{if}` whose braces are at `i` and `j`.
fn condition_of(s: &Vec<char>, i: usize, j: usize) -> (r: (Vec<char>, bool))
    requires
        i < j <= s@.len(),
    ensures
        (r.0@, r.1) == template_grammar::condition(s@, i as nat, j as nat),
{
    let tight = j - i >= 3 && s[i] == '{' && s[i + 1] == 'i' && s[i + 2] == 'f';
    proof {
        let word = seq!['{', 'i', 'f'];
        if tight {
            assert(s@.subrange(i as int, i + 3) =~= word);
        } else if i + 3 <= j && s@.subrange(i as int, i + 3) == word {
            assert(s@.subrange(i as int, i + 3)[0] == '{');
            assert(s@.subrange(i as int, i + 3)[1] == 'i');
            assert(s@.subrange(i as int, i + 3)[2] == 'f');
        }
    }
    let from: usize = if tight {
        i + 3
    } else {
        i
    };
    let t = text::trimmed(&text::part(s, from, j));
    if t.len() > 0 && t[0] == '!' {
        proof {
            assert(t@.subrange(1, t@.len() as int) =~= t@.drop_first());
        }
        (text::trimmed(&text::part(&t, 1, t.len())), true)
    } else {
        (t, false)
    }
}

/// Whether a node is what a condition's name says.
fn is_so(kind: NodeKind, name: &Vec<char>) -> (r: Option<bool>)
    ensures
        r == template_grammar::is_so(kind, name@),
{
    if text::is_text(name, "isfile") {
        Some(is_file_kind(kind))
    } else if text::is_text(name, "isfolder") {
        Some(is_folder_kind(kind))
    } else if text::is_text(name, "iscontainer") {
        Some(is_container_kind(kind))
    } else {
        None
    }
}

impl<'a> Renderer<'a> {
    /// What placeholders look at.
    spec fn scene(&self, id: NodeId, depth: u64) -> Scene {
        Scene {
            state: self.tree@,
            now: self.now,
            counts: self.counters@,
            root: self.root,
            id,
            depth: depth as nat,
        }
    }

    spec fn ready(&self, id: NodeId, depth: u64) -> bool {
        &&& self.tree@.links()
        &&& self.tree@.live(id)
        &&& depth <= 0x1_0000_0000
    }

    /// The value of a placeholder.
    fn placeholder(&self, name: &Vec<char>, id: NodeId, depth: u64) -> (r: Option<String>)
        requires
            self.ready(id, depth),
        ensures
            match r {
                Some(v) => template_grammar::value(self.scene(id, depth), name@) == Some(v@),
                None => template_grammar::value(self.scene(id, depth), name@) is None,
            },
    {
        proof {
            assert(self.tree@.node_ok(id));
        }
        let node = self.tree.node(id);
        if text::is_text(name, "pathfile") {
            Some(self.tree.path(id))
        } else if text::is_text(name, "path") {
            match node.parent {
                Some(parent) if id != self.root => Some(self.tree.path(parent)),
                _ => {
                    let none: String = String::new();
                    proof {
                        assert(none@ =~= Seq::empty());
                    }
                    Some(none)
                },
            }
        } else if text::is_text(name, "file") {
            Some(node.name.clone())
        } else if text::is_text(name, "fileext") {
            Some(text::text_of(&extension_of(&text::chars_of(node.name.as_str()))))
        } else if text::is_text(name, "size") {
            Some(sizes::human_size(node.agg_logical))
        } else if text::is_text(name, "sizebytes") {
            Some(export::decimal(node.agg_logical))
        } else if text::is_text(name, "disksize") {
            Some(sizes::human_size(node.agg_allocated))
        } else if text::is_text(name, "disksizebytes") {
            Some(export::decimal(node.agg_allocated))
        } else if text::is_text(name, "filemodifydate") {
            Some(time::format_rfc3339(node.modified))
        } else if text::is_text(name, "age") {
            Some(sizes::age_string(self.now, node.modified))
        } else if text::is_text(name, "isfile") {
            Some(bool_str(is_file_kind(node.kind)))
        } else if text::is_text(name, "isfolder") {
            Some(bool_str(is_folder_kind(node.kind)))
        } else if text::is_text(name, "iscontainer") {
            Some(bool_str(is_container_kind(node.kind)))
        } else if text::is_text(name, "nestinglevel") {
            Some(export::decimal(depth))
        } else if text::is_text(name, "counter") {
            Some(export::decimal(self.counters.element))
        } else if text::is_text(name, "filecounter") {
            Some(export::decimal(self.counters.file))
        } else if text::is_text(name, "foldercounter") {
            Some(export::decimal(self.counters.folder))
        } else {
            None
        }
    }
}

/// What one step through a section gave: some text, the pad that waits now, and
/// where to go on.
struct Move {
    text: String,
    pad: Option<PendingPad>,
    next: usize,
}

proof fn lemma_before(a: Seq<char>, b: Seq<char>, r: Result<Seq<char>, Mistake>)
    ensures
        template_grammar::before(a, template_grammar::before(b, r)) == template_grammar::before(
            a + b,
            r,
        ),
{
    if let Ok(u) = r {
        assert(a + (b + u) =~= (a + b) + u);
    }
}

/// A text in mathematical terms, for one character.
fn one(c: char) -> (s: String)
    ensures
        s@ == seq![c],
{
    let mut s: String = String::new();
    s.push(c);
    proof {
        assert(s@ =~= seq![c]);
    }
    s
}

fn nothing() -> (s: String)
    ensures
        s@ == Seq::<char>::empty(),
{
    let s: String = String::new();
    proof {
        assert(s@ =~= Seq::empty());
    }
    s
}

impl<'a> Renderer<'a> {
    /// What a step gave is what the section stands for from `i` on.
    spec fn advances(
        &self,
        s: Seq<char>,
        section: Seq<char>,
        id: NodeId,
        depth: u64,
        i: usize,
        to: usize,
        pad: Option<PendingPad>,
        level: usize,
        r: Result<Move, TemplateError>,
    ) -> bool {
        let sc = self.scene(id, depth);
        let all = template_grammar::rendered(
            sc,
            s,
            i as nat,
            to as nat,
            pads_view(pad),
            level as nat,
        );
        match r {
            Ok(m) => {
                &&& i < m.next
                &&& m.next <= to
                &&& m.pad matches Some(p) ==> p.start <= p.end && p.end <= s.len()
                &&& all == template_grammar::before(
                    m.text@,
                    template_grammar::rendered(
                        sc,
                        s,
                        m.next as nat,
                        to as nat,
                        pads_view(m.pad),
                        level as nat,
                    ),
                )
            },
            Err(e) => template_grammar::section_of(e) == section && all == Err::<
                Seq<char>,
                Mistake,
            >(template_grammar::mistake(e)),
        }
    }

    /// The step over a placeholder.
    fn placeholder_step(
        &self,
        s: &Vec<char>,
        section: &'static str,
        id: NodeId,
        depth: u64,
        i: usize,
        to: usize,
        pad: Option<PendingPad>,
        Ghost(level): Ghost<usize>,
    ) -> (r: Result<Move, TemplateError>)
        requires
            self.ready(id, depth),
            i < to <= s@.len(),
            text::byte_len(s@) <= usize::MAX,
            template_grammar::stands_at(s@, i as nat, to as nat, seq!['<', '%']),
        ensures
            self.advances(s@, section@, id, depth, i, to, pad, level, r),
    {
        proof {
            template_grammar::lemma_next_at(s@, (i + 2) as nat, to as nat, seq!['%', '>']);
        }
        match find_two(s, i + 2, to, '%', '>') {
            None => Err(
                TemplateError::UnterminatedPlaceholder { section, span: span_of(s, i, s.len()) },
            ),
            Some(j) => {
                let name = text::part(s, i + 2, j);
                match self.placeholder(&name, id, depth) {
                    None => Err(
                        TemplateError::UnknownPlaceholder {
                            name: text::text_of(&name),
                            section,
                            span: span_of(s, i, j + 2),
                        },
                    ),
                    Some(v) => Ok(Move { text: apply_pad(v, &pad), pad: None, next: j + 2 }),
                }
            },
        }
    }

    /// The step over an `{if}` block whose first braces are at `i` and `j`.
    fn conditional(
        &self,
        s: &Vec<char>,
        section: &'static str,
        id: NodeId,
        depth: u64,
        i: usize,
        j: usize,
        to: usize,
        pad: Option<PendingPad>,
        level: usize,
    ) -> (r: Result<Move, TemplateError>)
        requires
            self.ready(id, depth),
            i < j < to <= s@.len(),
            text::byte_len(s@) <= usize::MAX,
            pad matches Some(p) ==> p.start <= p.end <= s@.len(),
            !template_grammar::stands_at(s@, i as nat, to as nat, seq!['<', '%']),
            s@[i as int] == '{',
            !(i + 1 < to && s@[i + 1] == '{'),
            template_grammar::next_at(s@, (i + 1) as nat, to as nat, seq!['}']) == Some(j as nat),
            template_grammar::first_word(
                text::trim(template_grammar::cut(s@, (i + 1) as nat, j as nat)),
            ) == "if"@,
        ensures
            self.advances(s@, section@, id, depth, i, to, pad, level, r),
        decreases to - i, 1int,
    {
        proof {
            reveal_strlit("if");
            reveal_strlit("&br");
            reveal_strlit("&tab");
            reveal_strlit("leftpad");
            reveal_strlit("rightpad");
            reveal_strlit("nest");
            reveal_strlit("script");
            assert("if"@.len() == 2);
            assert("&br"@.len() == 3);
            assert("&tab"@.len() == 4);
            assert("leftpad"@.len() == 7);
            assert("rightpad"@.len() == 8);
            assert("nest"@.len() == 4);
            assert("script"@.len() == 6);
        }
        if level >= MAX_IF_DEPTH {
            return Err(TemplateError::ConditionalNestingTooDeep { section });
        }
        let (name, negated) = condition_of(s, i, j);
        proof {
            assert(self.tree@.node_ok(id));
        }
        let so = match is_so(self.tree.node(id).kind, &name) {
            Some(b) => b != negated,
            None => {
                return Err(
                    TemplateError::InvalidCondition {
                        reason: around(
                            "expected one of isfile, isfolder, iscontainer (optionally negated with `!`), got `",
                            &name,
                            "`",
                        ),
                        section,
                        span: span_of(s, i, j + 1),
                    },
                );
            },
        };
        proof {
            template_grammar::lemma_parts(
                s@,
                (j + 1) as nat,
                to as nat,
                0,
                None,
                template_grammar::span(s@, i as nat, (j + 1) as nat),
                (j + 1) as nat,
            );
        }
        let parts = match find_conditional_parts(s, j + 1, to, section, (i, j + 1)) {
            Ok(p) => p,
            Err(e) => {
                return Err(e);
            },
        };
        let branch: Option<(usize, usize)> = if so {
            match parts.other {
                Some(o) => Some((j + 1, o.0)),
                None => Some((j + 1, parts.end.0)),
            }
        } else {
            match parts.other {
                Some(o) => Some((o.1, parts.end.0)),
                None => None,
            }
        };
        match branch {
            None => {
                let text = nothing();
                proof {
                    let rest = template_grammar::rendered(
                        self.scene(id, depth),
                        s@,
                        parts.end.1 as nat,
                        to as nat,
                        pads_view(pad),
                        level as nat,
                    );
                    if let Ok(u) = rest {
                        assert(text@ + u =~= u);
                    }
                }
                Ok(Move { text, pad, next: parts.end.1 })
            },
            Some(b) => {
                let t = self.render_range(s, section, id, depth, b.0, b.1, level + 1)?;
                match pad {
                    Some(p) => Err(dangling(s, &p, section)),
                    None => Ok(Move { text: t, pad: None, next: parts.end.1 }),
                }
            },
        }
    }

    /// The step over a command whose braces are at `i` and `j`.
    fn command(
        &self,
        s: &Vec<char>,
        section: &'static str,
        id: NodeId,
        depth: u64,
        i: usize,
        j: usize,
        to: usize,
        pad: Option<PendingPad>,
        level: usize,
    ) -> (r: Result<Move, TemplateError>)
        requires
            self.ready(id, depth),
            i < j < to <= s@.len(),
            text::byte_len(s@) <= usize::MAX,
            pad matches Some(p) ==> p.start <= p.end <= s@.len(),
            !template_grammar::stands_at(s@, i as nat, to as nat, seq!['<', '%']),
            s@[i as int] == '{',
            !(i + 1 < to && s@[i + 1] == '{'),
            template_grammar::next_at(s@, (i + 1) as nat, to as nat, seq!['}']) == Some(j as nat),
        ensures
            self.advances(s@, section@, id, depth, i, to, pad, level, r),
        decreases to - i, 2int,
    {
        let body = text::trimmed(&text::part(s, i + 1, j));
        let head = first_word(&body);
        if text::is_text(&head, "&br") {
            Ok(Move { text: one('\n'), pad, next: j + 1 })
        } else if text::is_text(&head, "&tab") {
            Ok(Move { text: one('\t'), pad, next: j + 1 })
        } else if text::is_text(&head, "leftpad") || text::is_text(&head, "rightpad") {
            let right = text::is_text(&head, "rightpad");
            match pad_width(second_word(&body)) {
                Err(reason) => Err(
                    TemplateError::InvalidCommandArg {
                        command: pad_name(right),
                        reason,
                        section,
                        span: span_of(s, i, j + 1),
                    },
                ),
                Ok(width) => {
                    if pad.is_some() {
                        return Err(
                            TemplateError::DanglingPad {
                                command: pad_name(right),
                                section,
                                span: span_of(s, i, j + 1),
                            },
                        );
                    }
                    let wait = PendingPad { right, width, start: i, end: j + 1 };
                    let text = nothing();
                    proof {
                        let rest = template_grammar::rendered(
                            self.scene(id, depth),
                            s@,
                            (j + 1) as nat,
                            to as nat,
                            pads_view(Some(wait)),
                            level as nat,
                        );
                        if let Ok(u) = rest {
                            assert(text@ + u =~= u);
                        }
                    }
                    Ok(Move { text, pad: Some(wait), next: j + 1 })
                },
            }
        } else if text::is_text(&head, "nest") {
            match nest_width(second_word(&body)) {
                Err(reason) => Err(
                    TemplateError::InvalidCommandArg {
                        command: "nest",
                        reason,
                        section,
                        span: span_of(s, i, j + 1),
                    },
                ),
                Ok(width) => {
                    let mut text = nothing();
                    proof {
                        assert(depth * width <= 0x1_0000_0000 * 64) by (nonlinear_arith)
                            requires
                                depth <= 0x1_0000_0000,
                                width <= 64,
                        ;
                    }
                    push_spaces(&mut text, depth * width as u64);
                    proof {
                        assert(text@ =~= template_grammar::spaces(depth as nat * width as nat));
                    }
                    Ok(Move { text, pad, next: j + 1 })
                },
            }
        } else if text::is_text(&head, "script") {
            Err(
                TemplateError::UnsupportedCommand {
                    name: text::text_of(&body),
                    section,
                    span: span_of(s, i, j + 1),
                },
            )
        } else if text::is_text(&head, "if") {
            self.conditional(s, section, id, depth, i, j, to, pad, level)
        } else if text::is_text(&head, "else") {
            Err(
                TemplateError::UnmatchedConditional {
                    command: "else",
                    section,
                    span: span_of(s, i, j + 1),
                },
            )
        } else if text::is_text(&head, "endif") {
            Err(
                TemplateError::UnmatchedConditional {
                    command: "endif",
                    section,
                    span: span_of(s, i, j + 1),
                },
            )
        } else {
            Err(
                TemplateError::UnknownCommand {
                    name: text::text_of(&body),
                    section,
                    span: span_of(s, i, j + 1),
                },
            )
        }
    }

    /// The step over a brace at `i`.
    fn brace_step(
        &self,
        s: &Vec<char>,
        section: &'static str,
        id: NodeId,
        depth: u64,
        i: usize,
        to: usize,
        pad: Option<PendingPad>,
        level: usize,
    ) -> (r: Result<Move, TemplateError>)
        requires
            self.ready(id, depth),
            i < to <= s@.len(),
            text::byte_len(s@) <= usize::MAX,
            pad matches Some(p) ==> p.start <= p.end <= s@.len(),
            !template_grammar::stands_at(s@, i as nat, to as nat, seq!['<', '%']),
            s@[i as int] == '{',
        ensures
            self.advances(s@, section@, id, depth, i, to, pad, level, r),
        decreases to - i, 3int,
    {
        if to - i >= 2 && s[i + 1] == '{' {
            return Ok(Move { text: one('{'), pad, next: i + 2 });
        }
        proof {
            template_grammar::lemma_next_at(s@, (i + 1) as nat, to as nat, seq!['}']);
        }
        match find_brace(s, i + 1, to) {
            None => Err(
                TemplateError::UnterminatedCommand { section, span: span_of(s, i, s.len()) },
            ),
            Some(j) => self.command(s, section, id, depth, i, j, to, pad, level),
        }
    }

    /// Renders the characters from `from` up to `to` of a section.
    fn render_range(
        &self,
        s: &Vec<char>,
        section: &'static str,
        id: NodeId,
        depth: u64,
        from: usize,
        to: usize,
        level: usize,
    ) -> (r: Result<String, TemplateError>)
        requires
            self.ready(id, depth),
            from <= to <= s@.len(),
            text::byte_len(s@) <= usize::MAX,
        ensures
            result_view(r, section@) == template_grammar::rendered(
                self.scene(id, depth),
                s@,
                from as nat,
                to as nat,
                None,
                level as nat,
            ),
            r matches Err(e) ==> template_grammar::section_of(e) == section@,
        decreases to - from, 4int,
    {
        let ghost sc = self.scene(id, depth);
        let ghost goal = template_grammar::rendered(
            sc,
            s@,
            from as nat,
            to as nat,
            None,
            level as nat,
        );
        let mut out = nothing();
        let mut pad: Option<PendingPad> = None;
        let mut i: usize = from;
        proof {
            if let Ok(u) = goal {
                assert(out@ + u =~= u);
            }
        }
        while i < to
            invariant
                self.ready(id, depth),
                from <= i <= to <= s@.len(),
                text::byte_len(s@) <= usize::MAX,
                sc == self.scene(id, depth),
                goal == template_grammar::rendered(
                    sc,
                    s@,
                    from as nat,
                    to as nat,
                    None,
                    level as nat,
                ),
                pad matches Some(p) ==> p.start <= p.end <= s@.len(),
                goal == template_grammar::before(
                    out@,
                    template_grammar::rendered(
                        sc,
                        s@,
                        i as nat,
                        to as nat,
                        pads_view(pad),
                        level as nat,
                    ),
                ),
            decreases to - i,
        {
            let mark = two_at(s, i, to, '<', '%');
            if mark || s[i] == '{' {
                let step = if mark {
                    self.placeholder_step(s, section, id, depth, i, to, pad, Ghost(level))
                } else {
                    self.brace_step(s, section, id, depth, i, to, pad, level)
                };
                match step {
                    Err(e) => {
                        return Err(e);
                    },
                    Ok(m) => {
                        proof {
                            lemma_before(
                                out@,
                                m.text@,
                                template_grammar::rendered(
                                    sc,
                                    s@,
                                    m.next as nat,
                                    to as nat,
                                    pads_view(m.pad),
                                    level as nat,
                                ),
                            );
                        }
                        out.append(m.text.as_str());
                        pad = m.pad;
                        i = m.next;
                    },
                }
            } else {
                if let Some(p) = pad {
                    if !text::space(s[i]) {
                        return Err(dangling(s, &p, section));
                    }
                }
                proof {
                    lemma_before(
                        out@,
                        seq![s@[i as int]],
                        template_grammar::rendered(
                            sc,
                            s@,
                            (i + 1) as nat,
                            to as nat,
                            pads_view(pad),
                            level as nat,
                        ),
                    );
                    assert(out@ + seq![s@[i as int]] =~= out@.push(s@[i as int]));
                }
                out.push(s[i]);
                i = i + 1;
            }
        }
        if let Some(p) = pad {
            return Err(dangling(s, &p, section));
        }
        proof {
            assert(out@ + Seq::<char>::empty() =~= out@);
        }
        Ok(out)
    }

    /// Renders a section.
    fn render_section(&self, section_text: &str, section: &'static str, id: NodeId, depth: u64) -> (r:
        Result<String, TemplateError>)
        requires
            self.ready(id, depth),
        ensures
            result_view(r, section@) == template_grammar::section(
                self.scene(id, depth),
                section_text@,
            ),
            r matches Err(e) ==> template_grammar::section_of(e) == section@,
    {
        let s = text::measured_chars(section_text);
        self.render_range(&s, section, id, depth, 0, s.len(), 0)
    }
}

/// The bytes of a text.
pub open spec fn utf8(s: Seq<char>) -> Seq<u8> {
    vstd::utf8::encode_utf8(s)
}

/// What stands before the header: the template, the view and the filter.
pub open spec fn prologue(s: State, root: NodeId, name: Seq<char>, filter: Option<Seq<char>>) -> Seq<
    char,
> {
    "# RustySpaceSniffer export (template: "@ + name + ")\n# view: "@ + s.path_to(root)
        + "\n# filter: "@ + (match filter {
        Some(f) => f,
        None => "none"@,
    }) + "\n"@
}

/// A filter in mathematical terms.
pub open spec fn stated(filter: Option<&str>) -> Option<Seq<char>> {
    match filter {
        Some(f) => Some(f@),
        None => None,
    }
}

/// What is written of a report, the counts at that point, and the first mistake,
/// if there is one.
pub struct Written {
    pub bytes: Seq<u8>,
    pub counts: Counts,
    pub mistake: Option<Mistake>,
}

/// What the detail section gives for the nodes of a walk.
pub open spec fn details(
    s: State,
    root: NodeId,
    now: FileTime,
    detail: Seq<char>,
    counts: Counts,
    w: Seq<Visit>,
) -> Written
    decreases w.len(),
{
    if w.len() == 0 {
        Written { bytes: Seq::empty(), counts, mistake: None }
    } else {
        let more = counted(counts, s.nodes[w[0].id as int].kind);
        let sc = Scene { state: s, now, counts: more, root, id: w[0].id, depth: w[0].depth };
        match template_grammar::section(sc, detail) {
            Err(m) => Written { bytes: Seq::empty(), counts: more, mistake: Some(m) },
            Ok(t) => {
                let rest = details(s, root, now, detail, more, w.drop_first());
                Written { bytes: utf8(t) + rest.bytes, ..rest }
            },
        }
    }
}

/// A report: the bytes that are written, and the first mistake with its section,
/// if there is one.
pub open spec fn report(
    s: State,
    root: NodeId,
    t: TemplateView,
    filter: Option<Seq<char>>,
    now: FileTime,
) -> (Seq<u8>, Option<(Seq<char>, Mistake)>) {
    let none = Counts { element: 0, file: 0, folder: 0 };
    let start = Scene { state: s, now, counts: none, root, id: root, depth: 0 };
    let top = utf8(prologue(s, root, t.name, filter));
    match template_grammar::section(start, t.header) {
        Err(m) => (top, Some(("header"@, m))),
        Ok(header) => {
            let w = details(s, root, now, t.detail, none, visit::visits(s, by_template(s, t), root));
            match w.mistake {
                Some(m) => (top + utf8(header) + w.bytes, Some(("detail"@, m))),
                None => {
                    let end = Scene { state: s, now, counts: w.counts, root, id: root, depth: 0 };
                    match template_grammar::section(end, t.footer) {
                        Err(m) => (top + utf8(header) + w.bytes, Some(("footer"@, m))),
                        Ok(footer) => (top + utf8(header) + w.bytes + utf8(footer), None),
                    }
                },
            }
        },
    }
}

/// Appends the bytes of a text.
fn push_text(out: &mut Vec<u8>, t: &str)
    ensures
        final(out)@ == old(out)@ + utf8(t@),
{
    out.extend_from_slice(t.as_bytes());
}

fn make_prologue(tree: &Tree, root: NodeId, name: &str, filter: Option<&str>) -> (t: String)
    requires
        tree@.links(),
        tree@.live(root),
    ensures
        t@ == prologue(tree@, root, name@, stated(filter)),
{
    let mut t: String = "# RustySpaceSniffer export (template: ".to_owned();
    t.append(name);
    t.append(")\n# view: ");
    t.append(tree.path(root).as_str());
    t.append("\n# filter: ");
    match filter {
        Some(f) => t.append(f),
        None => t.append("none"),
    }
    t.append("\n");
    t
}

/// A subtree of a report that is still to be written.
struct Todo {
    id: NodeId,
    depth: u64,
}

spec fn todo_views(stack: Seq<Todo>) -> Seq<Visit> {
    Seq::new(stack.len(), |i: int| Visit { id: stack[i].id, depth: stack[i].depth as nat })
}

/// Puts children on the stack, the first on top.
fn push_children(stack: &mut Vec<Todo>, kids: &Vec<NodeId>, depth: u64)
    ensures
        todo_views(final(stack)@) == todo_views(old(stack)@) + visit::stacked(kids@, depth as nat),
{
    let ghost before = todo_views(stack@);
    let ghost all = visit::stacked(kids@, depth as nat);
    let mut k: usize = kids.len();
    proof {
        assert(todo_views(stack@) =~= before + all.take(0));
    }
    while k > 0
        invariant
            k <= kids@.len(),
            all == visit::stacked(kids@, depth as nat),
            todo_views(stack@) == before + all.take(kids@.len() - k),
        decreases k,
    {
        k = k - 1;
        let ghost mid = stack@;
        stack.push(Todo { id: kids[k], depth });
        proof {
            let n = kids@.len() - k;
            let last = Visit { id: kids@[k as int], depth: depth as nat };
            assert(todo_views(stack@) =~= todo_views(mid).push(last));
            assert(all.take(n) =~= all.take(n - 1).push(last));
            assert(todo_views(stack@) =~= before + all.take(n));
        }
    }
    proof {
        assert(all.take(kids@.len() as int) =~= all);
    }
}

/// The nodes that are left of a walk are live and no deeper than they are in the
/// tree.
spec fn left_ok(s: State, w: Seq<Visit>, root: NodeId) -> bool {
    forall|i: int|
        0 <= i < w.len() ==> s.live((#[trigger] w[i]).id) && w[i].depth == s.depth[w[i].id]
            - s.depth[root]
}

/// The first of what is left is what is on top of the stack.
proof fn lemma_top(s: State, kids: spec_fn(NodeId) -> Seq<NodeId>, stack: Seq<Visit>, root: NodeId)
    requires
        s.links(),
        visit::arranges(s, kids),
        stack.len() > 0,
        left_ok(s, visit::left(s, kids, stack), root),
        forall|i: int| 0 <= i < stack.len() ==> s.live((#[trigger] stack[i]).id),
    ensures
        visit::left(s, kids, stack).len() > 0,
        visit::left(s, kids, stack)[0] == stack.last(),
        s.live(stack.last().id),
        stack.last().depth == s.depth[stack.last().id] - s.depth[root],
{
    assert(s.live(stack[stack.len() - 1].id));
    assert(s.node_ok(stack.last().id));
    visit::lemma_step(s, kids, stack);
    let w = visit::left(s, kids, stack);
    assert(w[0] == stack.last());
}

/// Writes a report of the subtree of `root`.
///
/// The report starts with three lines that state the template, the view and the
/// filter. What was written before a mistake stays written.
pub fn render_template(
    tree: &Tree,
    root: NodeId,
    template: &ExportTemplate,
    context: &TemplateContext<'_>,
    out: &mut Vec<u8>,
) -> (r: Result<(), ExportError>)
    requires
        tree@.wf(),
    ensures
        !tree@.live(root) ==> r == Err::<(), ExportError>(
            ExportError::InvalidRoot(root),
        ) && final(out)@ == old(out)@,
        tree@.live(root) ==> {
            let (bytes, mistake) = report(
                tree@,
                root,
                template@,
                stated(context.filter),
                context.now,
            );
            &&& final(out)@ == old(out)@ + bytes
            &&& match r {
                Ok(_) => mistake is None,
                Err(ExportError::Template(e)) => mistake == Some(
                    (template_grammar::section_of(e), template_grammar::mistake(e)),
                ),
                Err(_) => false,
            }
        },
{
    if !tree.is_live(root) {
        return Err(ExportError::InvalidRoot(root));
    }
    let ghost s = tree@;
    let ghost start = out@;
    let ghost kids = by_template(s, template@);
    let ghost none = Counts { element: 0, file: 0, folder: 0 };
    let ghost all = visit::visits(s, kids, root);
    let ghost goal = details(s, root, context.now, template@.detail, none, all);
    let top = make_prologue(tree, root, template.name.as_str(), context.filter);
    push_text(out, top.as_str());
    let mut renderer = Renderer {
        tree,
        root,
        now: context.now,
        counters: Counters { element: 0, file: 0, folder: 0 },
    };
    let header = match renderer.render_section(template.header.as_str(), "header", root, 0) {
        Ok(t) => t,
        Err(e) => {
            return Err(ExportError::Template(e));
        },
    };
    push_text(out, header.as_str());
    let ghost head = utf8(top@) + utf8(header@);
    proof {
        assert(out@ =~= start + head);
        lemma_by_template(s, template@);
        visit::law_visits(s, kids, root);
        visit::lemma_visits_len(s, kids, root);
        assert(left_ok(s, all, root)) by {
            assert forall|i: int| 0 <= i < all.len() implies s.live((#[trigger] all[i]).id)
                && all[i].depth == s.depth[all[i].id] - s.depth[root] by {
                assert(visit::ids(all)[i] == all[i].id);
                assert(visit::ids(all).contains(all[i].id));
                assert(s.within(all[i].id, root));
            }
        }
    }
    let mut stack: Vec<Todo> = Vec::new();
    stack.push(Todo { id: root, depth: 0 });
    proof {
        let st = todo_views(stack@);
        assert(st.drop_last() =~= Seq::<Visit>::empty());
        assert(visit::left(s, kids, st.drop_last()) == Seq::<Visit>::empty());
        assert(st.last() == (Visit { id: root, depth: 0 }));
        assert(visit::left(s, kids, st) =~= all);
        assert(out@ + goal.bytes =~= start + (head + goal.bytes));
    }
    while stack.len() > 0
        invariant
            s == tree@,
            s.wf(),
            renderer.tree@ == s,
            renderer.root == root,
            renderer.now == context.now,
            kids == by_template(s, template@),
            visit::arranges(s, kids),
            s.live(root),
            left_ok(s, visit::left(s, kids, todo_views(stack@)), root),
            forall|i: int| 0 <= i < stack@.len() ==> s.live((#[trigger] stack@[i]).id),
            renderer.counters.element + visit::left(s, kids, todo_views(stack@)).len()
                <= 0x1_0000_0000,
            renderer.counters.file <= renderer.counters.element,
            renderer.counters.folder <= renderer.counters.element,
            out@ + details(
                s,
                root,
                context.now,
                template@.detail,
                renderer.counters@,
                visit::left(s, kids, todo_views(stack@)),
            ).bytes == start + (head + goal.bytes),
            goal.counts == details(
                s,
                root,
                context.now,
                template@.detail,
                renderer.counters@,
                visit::left(s, kids, todo_views(stack@)),
            ).counts,
            goal.mistake == details(
                s,
                root,
                context.now,
                template@.detail,
                renderer.counters@,
                visit::left(s, kids, todo_views(stack@)),
            ).mistake,
            start == old(out)@,
            head == utf8(prologue(s, root, template@.name, stated(context.filter))) + utf8(
                header@,
            ),
            goal == details(
                s,
                root,
                context.now,
                template@.detail,
                Counts { element: 0, file: 0, folder: 0 },
                visit::visits(s, kids, root),
            ),
            template_grammar::section(
                Scene {
                    state: s,
                    now: context.now,
                    counts: Counts { element: 0, file: 0, folder: 0 },
                    root,
                    id: root,
                    depth: 0,
                },
                template@.header,
            ) == Ok::<Seq<char>, Mistake>(header@),
        decreases visit::left(s, kids, todo_views(stack@)).len(),
    {
        let ghost before = todo_views(stack@);
        let ghost rest = visit::left(s, kids, before);
        let ghost counts = renderer.counters@;
        let ghost so_far = out@;
        proof {
            lemma_top(s, kids, before, root);
            visit::lemma_step(s, kids, before);
        }
        let todo = stack.pop().unwrap();
        proof {
            assert(todo_views(stack@) =~= before.drop_last());
            assert(s.node_ok(todo.id));
            s.lemma_depth(todo.id);
        }
        renderer.counters.count_node(tree.node(todo.id).kind);
        let ghost after = visit::left(
            s,
            kids,
            before.drop_last() + visit::stacked(kids(todo.id), (todo.depth + 1) as nat),
        );
        proof {
            assert(rest.drop_first() =~= after);
            assert(renderer.counters@ == counted(counts, s.nodes[rest[0].id as int].kind));
        }
        let line = match renderer.render_section(
            template.detail.as_str(),
            "detail",
            todo.id,
            todo.depth,
        ) {
            Ok(t) => t,
            Err(e) => {
                proof {
                    assert(out@ + Seq::<u8>::empty() =~= out@);
                    assert(out@ =~= start + (head + goal.bytes));
                }
                return Err(ExportError::Template(e));
            },
        };
        push_text(out, line.as_str());
        let children = ordered_children(tree, todo.id, template);
        let ghost popped = stack@;
        push_children(&mut stack, &children, todo.depth + 1);
        proof {
            assert(todo_views(stack@) == before.drop_last() + visit::stacked(
                kids(todo.id),
                (todo.depth + 1) as nat,
            ));
            assert forall|i: int| 0 <= i < stack@.len() implies s.live(
                (#[trigger] stack@[i]).id,
            ) by {
                let now = todo_views(stack@);
                assert(now[i].id == stack@[i].id);
                if i < popped.len() {
                    assert(now[i] == before.drop_last()[i]);
                    assert(before[i].id == stack@[i].id);
                    assert(todo_views(popped)[i].id == popped[i].id);
                    assert(s.live(popped[i].id));
                } else {
                    let j = i - popped.len();
                    assert(now[i] == visit::stacked(kids(todo.id), (todo.depth + 1) as nat)[j]);
                    assert(kids(todo.id).contains(stack@[i].id));
                }
            }
            assert forall|i: int| 0 <= i < after.len() implies s.live((#[trigger] after[i]).id)
                && after[i].depth == s.depth[after[i].id] - s.depth[root] by {
                assert(after[i] == rest[i + 1]);
            }
            let tail = details(s, root, context.now, template@.detail, renderer.counters@, after);
            assert(out@ + tail.bytes =~= so_far + (utf8(line@) + tail.bytes));
        }
    }
    proof {
        assert(out@ + Seq::<u8>::empty() =~= out@);
        assert(out@ =~= start + (head + goal.bytes));
    }
    let footer = match renderer.render_section(template.footer.as_str(), "footer", root, 0) {
        Ok(t) => t,
        Err(e) => {
            return Err(ExportError::Template(e));
        },
    };
    push_text(out, footer.as_str());
    proof {
        assert(out@ =~= start + (head + goal.bytes + utf8(footer@)));
    }
    Ok(())
}

} // verus!
