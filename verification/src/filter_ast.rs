//! The conditions a filter is made of.
use vstd::prelude::*;
use vstd::string::*;

use crate::node::{NodeFlags, Tag};
use crate::text;

verus! {

/// A range of byte offsets in a filter string, the end not counted in.
#[derive(Clone, Copy, PartialEq, Eq, Debug, Structural)]
pub struct Span {
    pub start: usize,
    pub end: usize,
}

impl Span {
    pub fn new(start: usize, end: usize) -> (span: Self)
        ensures
            span == (Span { start, end }),
    {
        Span { start, end }
    }

    /// How many bytes the span covers.
    pub fn len(&self) -> (n: usize)
        requires
            self.start <= self.end,
        ensures
            n == self.end - self.start,
    {
        self.end - self.start
    }

    pub fn is_empty(&self) -> (r: bool)
        ensures
            r == (self.start == self.end),
    {
        self.start == self.end
    }
}

impl Default for Span {
    fn default() -> (span: Self)
        ensures
            span == (Span { start: 0, end: 0 }),
    {
        Span { start: 0, end: 0 }
    }
}

/// A warning in mathematical terms.
#[verifier::ext_equal]
pub struct WarningView {
    pub span: Span,
    pub message: Seq<char>,
}

/// A problem in one condition of a filter string. The condition is left out of
/// the filter; the others still apply.
#[derive(Clone, PartialEq, Eq, Debug)]
pub struct ParseWarning {
    pub span: Span,
    pub message: String,
}

impl View for ParseWarning {
    type V = WarningView;

    open spec fn view(&self) -> WarningView {
        WarningView { span: self.span, message: self.message@ }
    }
}

impl ParseWarning {
    /// The warning with its place: `at 3..8: message`.
    pub fn describe(&self) -> (s: String)
        ensures
            s@ == "at "@ + text::dec(self.span.start as nat) + ".."@ + text::dec(
                self.span.end as nat,
            ) + ": "@ + self.message@,
    {
        let mut s: String = "at ".to_owned();
        text::push_decimal(&mut s, self.span.start as u64);
        s.append("..");
        text::push_decimal(&mut s, self.span.end as u64);
        s.append(": ");
        s.append(self.message.as_str());
        s
    }
}

/// Which size a condition looks at.
#[derive(Clone, Copy, PartialEq, Eq, Debug, Structural)]
pub enum SizeMetric {
    /// The allocated size, which is meant where nothing else is said.
    Disk,
    /// The logical size.
    Logical,
}

/// Which timestamp a condition looks at.
#[derive(Clone, Copy, PartialEq, Eq, Debug, Structural)]
pub enum AgeField {
    Creation,
    /// The time of modification, which is meant where nothing else is said.
    Modify,
    Access,
}

/// A comparison; both are strict.
#[derive(Clone, Copy, PartialEq, Eq, Debug, Structural)]
pub enum CmpOp {
    Lt,
    Gt,
}

impl CmpOp {
    pub open spec fn holds(self, lhs: int, rhs: int) -> bool {
        match self {
            CmpOp::Lt => lhs < rhs,
            CmpOp::Gt => lhs > rhs,
        }
    }

    pub fn apply(self, lhs: u64, rhs: u64) -> (r: bool)
        ensures
            r == self.holds(lhs as int, rhs as int),
    {
        match self {
            CmpOp::Lt => lhs < rhs,
            CmpOp::Gt => lhs > rhs,
        }
    }
}

/// A set of tags, one bit for each.
#[derive(Clone, Copy, PartialEq, Eq, Debug, Structural)]
pub struct TagSet(pub u8);

/// The bit that stands for a tag.
pub open spec fn tag_bit(tag: Tag) -> u8 {
    match tag {
        Tag::Red => TagSet::RED,
        Tag::Yellow => TagSet::YELLOW,
        Tag::Green => TagSet::GREEN,
        Tag::Blue => TagSet::BLUE,
    }
}

impl TagSet {
    /// The bits of the set without tags.
    pub const EMPTY: u8 = 0;

    /// The bits of the set of all tags.
    pub const ALL: u8 = 15;

    /// The bit of red.
    pub const RED: u8 = 1;

    /// The bit of yellow.
    pub const YELLOW: u8 = 2;

    /// The bit of green.
    pub const GREEN: u8 = 4;

    /// The bit of blue.
    pub const BLUE: u8 = 8;

    /// Whether a tag is in the set.
    pub open spec fn has(self, tag: Tag) -> bool {
        self.0 & tag_bit(tag) != 0
    }

    /// Whether no bit is set but those of tags.
    pub open spec fn wf(self) -> bool {
        self.0 <= TagSet::ALL
    }

    fn bit(tag: Tag) -> (b: u8)
        ensures
            b == tag_bit(tag),
    {
        match tag {
            Tag::Red => TagSet::RED,
            Tag::Yellow => TagSet::YELLOW,
            Tag::Green => TagSet::GREEN,
            Tag::Blue => TagSet::BLUE,
        }
    }

    /// The set with one tag.
    pub fn from_tag(tag: Tag) -> (set: Self)
        ensures
            set.0 == tag_bit(tag),
            set.wf(),
            forall|t: Tag| #[trigger] set.has(t) <==> t == tag,
    {
        proof {
            lemma_bits();
        }
        TagSet(TagSet::bit(tag))
    }

    pub fn contains(self, tag: Tag) -> (r: bool)
        ensures
            r == self.has(tag),
    {
        self.0 & TagSet::bit(tag) != 0
    }

    /// Adds a tag.
    pub fn insert(&mut self, tag: Tag)
        ensures
            final(self).0 == old(self).0 | tag_bit(tag),
            old(self).wf() ==> final(self).wf(),
            forall|t: Tag| #[trigger] final(self).has(t) <==> old(self).has(t) || t == tag,
    {
        let b: u8 = TagSet::bit(tag);
        proof {
            lemma_bits();
            lemma_union(self.0, b);
        }
        self.0 = self.0 | b;
    }

    /// The tags of either set.
    pub fn union(self, other: Self) -> (set: Self)
        ensures
            set.0 == self.0 | other.0,
            self.wf() && other.wf() ==> set.wf(),
            forall|t: Tag| #[trigger] set.has(t) <==> self.has(t) || other.has(t),
    {
        proof {
            lemma_union(self.0, other.0);
        }
        TagSet(self.0 | other.0)
    }

    /// Whether two sets have a tag in common.
    pub fn intersects(self, other: Self) -> (r: bool)
        ensures
            r == (self.0 & other.0 != 0),
            self.wf() ==> (r <==> exists|t: Tag| #[trigger] self.has(t) && other.has(t)),
    {
        proof {
            if self.wf() {
                lemma_intersect(self, other);
            }
        }
        self.0 & other.0 != 0
    }

    pub fn is_empty(self) -> (r: bool)
        ensures
            r == (self.0 == 0),
            self.wf() ==> (r <==> forall|t: Tag| !#[trigger] self.has(t)),
    {
        proof {
            if self.wf() {
                lemma_empty(self);
            }
        }
        self.0 == 0
    }

    /// Adds the tags of another set.
    pub fn set_union(&mut self, other: Self)
        ensures
            final(self).0 == old(self).0 | other.0,
            old(self).wf() && other.wf() ==> final(self).wf(),
            forall|t: Tag| #[trigger] final(self).has(t) <==> old(self).has(t) || other.has(t),
    {
        proof {
            lemma_union(self.0, other.0);
        }
        self.0 = self.0 | other.0;
    }
}

impl Default for TagSet {
    fn default() -> (set: Self)
        ensures
            set == TagSet(TagSet::EMPTY),
    {
        TagSet(TagSet::EMPTY)
    }
}

/// The bits of the tags are distinct and stand for them.
pub proof fn lemma_bits()
    ensures
        forall|s: Tag, t: Tag|
            #![trigger tag_bit(s), tag_bit(t)]
            (tag_bit(s) & tag_bit(t) != 0) <==> s == t,
        forall|t: Tag| #[trigger] tag_bit(t) <= TagSet::ALL,
{
    assert(1u8 & 1 == 1 && 2u8 & 2 == 2 && 4u8 & 4 == 4 && 8u8 & 8 == 8) by (bit_vector);
    assert(1u8 & 2 == 0 && 1u8 & 4 == 0 && 1u8 & 8 == 0 && 2u8 & 4 == 0 && 2u8 & 8 == 0 && 4u8 & 8
        == 0) by (bit_vector);
    assert(2u8 & 1 == 0 && 4u8 & 1 == 0 && 8u8 & 1 == 0 && 4u8 & 2 == 0 && 8u8 & 2 == 0 && 8u8 & 4
        == 0) by (bit_vector);
}

/// The tags of two sets of bits together are those of either.
pub proof fn lemma_union(a: u8, b: u8)
    ensures
        a <= TagSet::ALL && b <= TagSet::ALL ==> a | b <= TagSet::ALL,
        forall|t: Tag|
            #[trigger] TagSet(a | b).has(t) <==> TagSet(a).has(t) || TagSet(b).has(t),
{
    assert(a <= 15 && b <= 15 ==> a | b <= 15) by (bit_vector);
    assert forall|t: Tag| #[trigger] TagSet(a | b).has(t) <==> TagSet(a).has(t) || TagSet(b).has(
        t,
    ) by {
        let c = tag_bit(t);
        assert((a | b) & c != 0 <==> (a & c != 0 || b & c != 0)) by (bit_vector);
    }
}

proof fn lemma_intersect(a: TagSet, b: TagSet)
    requires
        a.wf(),
    ensures
        (a.0 & b.0 != 0) <==> exists|t: Tag| #[trigger] a.has(t) && b.has(t),
{
    let x: u8 = a.0;
    let y: u8 = b.0;
    assert(x <= 15 && x & y != 0 ==> (x & 1 != 0 && y & 1 != 0) || (x & 2 != 0 && y & 2 != 0) || (x
        & 4 != 0 && y & 4 != 0) || (x & 8 != 0 && y & 8 != 0)) by (bit_vector);
    assert((x & 1 != 0 && y & 1 != 0) || (x & 2 != 0 && y & 2 != 0) || (x & 4 != 0 && y & 4 != 0)
        || (x & 8 != 0 && y & 8 != 0) ==> x & y != 0) by (bit_vector);
    assert(a.has(Tag::Red) == (x & 1 != 0) && b.has(Tag::Red) == (y & 1 != 0));
    assert(a.has(Tag::Yellow) == (x & 2 != 0) && b.has(Tag::Yellow) == (y & 2 != 0));
    assert(a.has(Tag::Green) == (x & 4 != 0) && b.has(Tag::Green) == (y & 4 != 0));
    assert(a.has(Tag::Blue) == (x & 8 != 0) && b.has(Tag::Blue) == (y & 8 != 0));
}

proof fn lemma_empty(a: TagSet)
    requires
        a.wf(),
    ensures
        a.0 == 0 <==> forall|t: Tag| !#[trigger] a.has(t),
{
    let x: u8 = a.0;
    assert(x & x == x) by (bit_vector);
    lemma_intersect(a, a);
    assert(0u8 & 1 == 0 && 0u8 & 2 == 0 && 0u8 & 4 == 0 && 0u8 & 8 == 0) by (bit_vector);
}

/// A tag expression: one of `included` must be there, none of `excluded` may
/// be. With nothing included, any tag will do.
#[derive(Clone, Copy, PartialEq, Eq, Debug, Structural)]
pub struct TagExpr {
    pub included: TagSet,
    pub excluded: TagSet,
}

impl TagExpr {
    /// Whether the tags for which `tagged` holds meet the expression.
    pub open spec fn holds(self, tagged: spec_fn(Tag) -> bool) -> bool {
        &&& exists|t: Tag|
            #[trigger] tagged(t) && (self.included.0 == 0 || self.included.has(t))
        &&& forall|t: Tag| #[trigger] tagged(t) ==> !self.excluded.has(t)
    }

    /// Whether a set of tags meets the expression.
    pub fn matches(&self, effective: TagSet) -> (r: bool)
        requires
            effective.wf(),
        ensures
            r == self.holds(|t: Tag| effective.has(t)),
    {
        let included = if self.included.is_empty() {
            TagSet(TagSet::ALL)
        } else {
            self.included
        };
        let hit = effective.intersects(included);
        let vetoed = effective.intersects(self.excluded);
        proof {
            assert(15u8 & 1 != 0 && 15u8 & 2 != 0 && 15u8 & 4 != 0 && 15u8 & 8 != 0) by (bit_vector);
            assert forall|t: Tag| #[trigger] TagSet(TagSet::ALL).has(t) by {}
            let tagged = |t: Tag| effective.has(t);
            assert forall|t: Tag| #[trigger] tagged(t) == effective.has(t) by {}
            if hit {
                let t = choose|t: Tag| #[trigger] effective.has(t) && included.has(t);
                assert(tagged(t));
            }
            if vetoed {
                let t = choose|t: Tag| #[trigger] effective.has(t) && self.excluded.has(t);
                assert(tagged(t));
            }
        }
        hit && !vetoed
    }
}

/// Whether an attribute must be set or clear.
#[derive(Clone, Copy, PartialEq, Eq, Debug, Structural)]
pub enum AttrRequirement {
    IsSet,
    Clear,
}

/// One attribute that a condition asks for.
#[derive(Clone, Copy, PartialEq, Eq, Debug, Structural)]
pub struct AttrTest {
    pub flags: NodeFlags,
    pub requirement: AttrRequirement,
}

impl AttrTest {
    pub open spec fn holds(self, flags: NodeFlags) -> bool {
        match self.requirement {
            AttrRequirement::IsSet => flags.has(self.flags),
            AttrRequirement::Clear => !flags.has(self.flags),
        }
    }

    pub fn matches(&self, flags: NodeFlags) -> (r: bool)
        ensures
            r == self.holds(flags),
    {
        match self.requirement {
            AttrRequirement::IsSet => flags.contains(self.flags),
            AttrRequirement::Clear => !flags.contains(self.flags),
        }
    }
}

/// What a condition tests, in mathematical terms.
#[verifier::ext_equal]
pub enum KindView {
    FileMask { pattern: Seq<char>, negated: bool },
    FolderMask { pattern: Seq<char>, negated: bool },
    Size { metric: SizeMetric, op: CmpOp, bytes: u64 },
    Age { field: AgeField, op: CmpOp, seconds: u64 },
    Tag { expr: TagExpr, negated: bool },
    Attr { tests: Seq<AttrTest>, negated: bool },
    Class { name: Seq<char>, extensions: Seq<Seq<char>>, negated: bool },
}

/// What a condition tests.
#[derive(Clone, PartialEq, Debug)]
pub enum ConditionKind {
    /// The name of the node matches a pattern.
    FileMask { pattern: String, negated: bool },
    /// The name of the node, if it is a directory, or of a directory above it
    /// matches a pattern.
    FolderMask { pattern: String, negated: bool },
    /// The node's own size.
    Size { metric: SizeMetric, op: CmpOp, bytes: u64 },
    /// The age of the node. A month has 30 days and a year 365.
    Age { field: AgeField, op: CmpOp, seconds: u64 },
    /// The tags of the node and of the nodes above it.
    Tag { expr: TagExpr, negated: bool },
    /// The attributes of the node; all the tests must hold.
    Attr { tests: Vec<AttrTest>, negated: bool },
    /// The extension of the node's name is one of a class.
    Class { name: String, extensions: Vec<String>, negated: bool },
}

impl View for ConditionKind {
    type V = KindView;

    open spec fn view(&self) -> KindView {
        match *self {
            ConditionKind::FileMask { pattern, negated } => KindView::FileMask {
                pattern: pattern@,
                negated,
            },
            ConditionKind::FolderMask { pattern, negated } => KindView::FolderMask {
                pattern: pattern@,
                negated,
            },
            ConditionKind::Size { metric, op, bytes } => KindView::Size { metric, op, bytes },
            ConditionKind::Age { field, op, seconds } => KindView::Age { field, op, seconds },
            ConditionKind::Tag { expr, negated } => KindView::Tag { expr, negated },
            ConditionKind::Attr { tests, negated } => KindView::Attr { tests: tests@, negated },
            ConditionKind::Class { name, extensions, negated } => KindView::Class {
                name: name@,
                extensions: text::texts(extensions@),
                negated,
            },
        }
    }
}

/// A condition in mathematical terms.
#[verifier::ext_equal]
pub struct ConditionView {
    pub kind: KindView,
    pub span: Span,
}

/// A condition and its place in the filter string.
#[derive(Clone, PartialEq, Debug)]
pub struct Condition {
    pub kind: ConditionKind,
    pub span: Span,
}

impl View for Condition {
    type V = ConditionView;

    open spec fn view(&self) -> ConditionView {
        ConditionView { kind: self.kind@, span: self.span }
    }
}

/// A file class in mathematical terms.
#[verifier::ext_equal]
pub struct ClassView {
    pub name: Seq<char>,
    pub extensions: Seq<Seq<char>>,
}

/// A name for a list of extensions.
#[derive(Clone, PartialEq, Eq, Debug)]
pub struct FileClass {
    /// The name, whose case does not matter in a condition.
    pub name: String,
    /// The extensions, in lower case and without a dot in front.
    pub extensions: Vec<String>,
}

impl View for FileClass {
    type V = ClassView;

    open spec fn view(&self) -> ClassView {
        ClassView { name: self.name@, extensions: text::texts(self.extensions@) }
    }
}

/// The file classes in mathematical terms.
pub open spec fn class_views(classes: Seq<FileClass>) -> Seq<ClassView> {
    Seq::new(classes.len(), |i: int| classes[i]@)
}

/// A text without the dots at its start.
pub open spec fn undotted(s: Seq<char>) -> Seq<char>
    decreases s.len(),
{
    if s.len() > 0 && s[0] == '.' {
        undotted(s.drop_first())
    } else {
        s
    }
}

/// Extensions in lower case and without dots in front, the empty ones left out.
pub open spec fn normal_extensions(raw: Seq<Seq<char>>) -> Seq<Seq<char>>
    decreases raw.len(),
{
    if raw.len() == 0 {
        Seq::empty()
    } else {
        let e = text::lower(undotted(raw.last()));
        let before = normal_extensions(raw.drop_last());
        if e.len() == 0 {
            before
        } else {
            before.push(e)
        }
    }
}

/// Whether every one of the texts is ASCII.
pub open spec fn each_ascii(raw: Seq<Seq<char>>) -> bool {
    forall|i: int| 0 <= i < raw.len() ==> text::all_ascii(#[trigger] raw[i])
}

/// ASCII extensions in lower case and without dots in front, the empty ones
/// left out.
pub open spec fn ascii_extensions(raw: Seq<Seq<char>>) -> Seq<Seq<char>>
    decreases raw.len(),
{
    if raw.len() == 0 {
        Seq::empty()
    } else {
        let e = text::ascii_lower_text(undotted(raw.last()));
        let before = ascii_extensions(raw.drop_last());
        if e.len() == 0 {
            before
        } else {
            before.push(e)
        }
    }
}

/// Without its dots an ASCII text is ASCII, and starts with no dot.
proof fn lemma_undotted(s: Seq<char>)
    ensures
        text::all_ascii(s) ==> text::all_ascii(undotted(s)),
        undotted(s).len() > 0 ==> undotted(s)[0] != '.',
    decreases s.len(),
{
    if s.len() > 0 && s[0] == '.' {
        lemma_undotted(s.drop_first());
        if text::all_ascii(s) {
            assert forall|i: int| 0 <= i < s.drop_first().len() implies (#[trigger] s.drop_first()[i])
                < '\u{80}' by {
                assert(s[i + 1] < '\u{80}');
            }
        }
    }
}

/// The extensions of a class are in normal form: a class made of them has the
/// same.
pub proof fn law_extensions_are_normal(raw: Seq<Seq<char>>)
    requires
        each_ascii(raw),
    ensures
        each_ascii(ascii_extensions(raw)),
        ascii_extensions(ascii_extensions(raw)) == ascii_extensions(raw),
        forall|i: int|
            0 <= i < ascii_extensions(raw).len() ==> {
                let e = #[trigger] ascii_extensions(raw)[i];
                e.len() > 0 && e[0] != '.' && text::ascii_lower_text(e) == e
            },
    decreases raw.len(),
{
    if raw.len() > 0 {
        let less = raw.drop_last();
        assert forall|i: int| 0 <= i < less.len() implies text::all_ascii(#[trigger] less[i]) by {
            assert(less[i] == raw[i]);
        }
        law_extensions_are_normal(less);
        let u = undotted(raw.last());
        let e = text::ascii_lower_text(u);
        lemma_undotted(raw.last());
        assert(text::all_ascii(raw[raw.len() - 1]));
        assert forall|i: int| 0 <= i < e.len() implies (#[trigger] e[i]) < '\u{80}'
            && text::ascii_lower(e[i]) == e[i] by {
            assert(u[i] < '\u{80}');
        }
        assert(text::ascii_lower_text(e) =~= e);
        if e.len() > 0 {
            assert(e[0] != '.');
            assert(undotted(e) == e);
            let before = ascii_extensions(less);
            assert(before.push(e).drop_last() =~= before);
            assert(before.push(e).last() == e);
        }
    }
}

/// A text without the dots at its start.
fn without_dots(chars: &Vec<char>) -> (r: Vec<char>)
    ensures
        r@ == undotted(chars@),
{
    let mut n: usize = 0;
    proof {
        assert(chars@.skip(0) =~= chars@);
    }
    while n < chars.len() && chars[n] == '.'
        invariant
            n <= chars@.len(),
            undotted(chars@) == undotted(chars@.skip(n as int)),
        decreases chars@.len() - n,
    {
        proof {
            assert(chars@.skip(n as int)[0] == chars@[n as int]);
            assert(chars@.skip(n as int).drop_first() =~= chars@.skip(n + 1));
        }
        n = n + 1;
    }
    proof {
        if n < chars@.len() {
            assert(chars@.skip(n as int)[0] == chars@[n as int]);
        }
        assert(chars@.skip(n as int) =~= chars@.subrange(n as int, chars@.len() as int));
    }
    text::part(chars, n, chars.len())
}

impl FileClass {
    /// A class of the given name, its extensions put into normal form.
    pub fn new(name: &str, extensions: &[&str]) -> (class: Self)
        ensures
            class@.name == name@,
            ({
                let raw = Seq::new(extensions@.len(), |i: int| extensions@[i]@);
                &&& class@.extensions == normal_extensions(raw)
                &&& each_ascii(raw) ==> class@.extensions == ascii_extensions(raw)
            }),
    {
        let ghost raw = Seq::new(extensions@.len(), |i: int| extensions@[i]@);
        let mut list: Vec<String> = Vec::new();
        for i in 0..extensions.len()
            invariant
                raw == Seq::new(extensions@.len(), |i: int| extensions@[i]@),
                text::texts(list@) == normal_extensions(raw.take(i as int)),
                each_ascii(raw) ==> text::texts(list@) == ascii_extensions(raw.take(i as int)),
        {
            let chars = text::chars_of(extensions[i]);
            let e = text::lowered(&without_dots(&chars));
            proof {
                assert(raw.take(i + 1).drop_last() =~= raw.take(i as int));
                assert(raw.take(i + 1).last() == chars@);
                assert(raw[i as int] == chars@);
                lemma_undotted(chars@);
            }
            if e.len() > 0 {
                let s = text::text_of(&e);
                let ghost before = list@;
                list.push(s);
                proof {
                    assert(text::texts(list@) =~= text::texts(before).push(s@));
                }
            }
        }
        proof {
            assert(raw.take(raw.len() as int) =~= raw);
        }
        FileClass { name: name.to_owned(), extensions: list }
    }
}

} // verus!
