//! The grammar of filter strings: what conditions and warnings a text stands
//! for.
//!
//! Conditions are separated by `;`, and a piece without text is no condition. A
//! piece that is no condition of the grammar gives a warning and nothing else.
//! A keyword or unit may be cut short where all the words it can stand for mean
//! the same; where they do not, that is a warning and not a guess.
use vstd::prelude::*;

use crate::filter_ast;
use crate::filter_ast::{
    AgeField, AttrRequirement, AttrTest, ClassView, CmpOp, ConditionView, KindView, SizeMetric, Span,
    TagExpr, TagSet, WarningView,
};
use crate::node::{NodeFlags, Tag};
use crate::text;

verus! {

/// What looking a word up gave.
#[verifier::ext_equal]
pub enum Meaning {
    /// The word means this.
    Found(u64),
    /// The word can stand for several words, listed here.
    Ambiguous(Seq<char>),
    /// The word means nothing.
    Unknown,
}

/// The units of age in seconds.
pub open spec fn age_units() -> Seq<(Seq<char>, u64)> {
    seq![
        ("seconds"@, 1u64),
        ("minutes"@, 60u64),
        ("hours"@, 3_600u64),
        ("days"@, 86_400u64),
        ("weeks"@, 604_800u64),
        ("months"@, 2_592_000u64),
        ("years"@, 31_536_000u64),
    ]
}

/// The units of size in bytes.
pub open spec fn size_units() -> Seq<(Seq<char>, u64)> {
    seq![
        ("b"@, 1u64),
        ("kb"@, 1_024u64),
        ("mb"@, 1_048_576u64),
        ("gb"@, 1_073_741_824u64),
        ("tb"@, 1_099_511_627_776u64),
    ]
}

/// The keywords for sizes.
pub open spec fn size_keywords() -> Seq<(Seq<char>, u64)> {
    seq![
        ("disksize"@, 0u64),
        ("clustersize"@, 0u64),
        ("filesize"@, 1u64),
        ("logicalsize"@, 1u64),
        ("size"@, 0u64),
        ("disk"@, 0u64),
        ("dsk"@, 0u64),
        ("dsksz"@, 0u64),
    ]
}

/// Which size a keyword's number stands for.
pub open spec fn metric_of(code: u64) -> SizeMetric {
    if code == 0 {
        SizeMetric::Disk
    } else {
        SizeMetric::Logical
    }
}

/// The keywords for ages.
pub open spec fn age_keywords() -> Seq<(Seq<char>, u64)> {
    seq![
        ("creation"@, 0u64),
        ("created"@, 0u64),
        ("modify"@, 1u64),
        ("modified"@, 1u64),
        ("access"@, 2u64),
        ("accessed"@, 2u64),
    ]
}

/// Which timestamp a keyword's number stands for.
pub open spec fn field_of(code: u64) -> AgeField {
    if code == 0 {
        AgeField::Creation
    } else if code == 1 {
        AgeField::Modify
    } else {
        AgeField::Access
    }
}

/// The names of attributes, each with its flag bit.
pub open spec fn attr_names() -> Seq<(Seq<char>, u64)> {
    seq![
        ("archive"@, NodeFlags::ARCHIVE as u64),
        ("a"@, NodeFlags::ARCHIVE as u64),
        ("system"@, NodeFlags::SYSTEM as u64),
        ("readonly"@, NodeFlags::READONLY as u64),
        ("ro"@, NodeFlags::READONLY as u64),
        ("hidden"@, NodeFlags::HIDDEN as u64),
        ("compressed"@, NodeFlags::COMPRESSED as u64),
        ("encrypted"@, NodeFlags::ENCRYPTED as u64),
        ("offline"@, NodeFlags::OFFLINE as u64),
        ("temporary"@, NodeFlags::TEMPORARY as u64),
        ("notindexed"@, NodeFlags::NOT_INDEXED as u64),
        ("sparse"@, NodeFlags::SPARSE as u64),
        ("sp"@, NodeFlags::SPARSE as u64),
        ("ads"@, NodeFlags::ADS as u64),
    ]
}

/// What the first entry of that very name means.
pub open spec fn exact(table: Seq<(Seq<char>, u64)>, w: Seq<char>) -> Option<u64>
    decreases table.len(),
{
    if table.len() == 0 {
        None
    } else if table[0].0 == w {
        Some(table[0].1)
    } else {
        exact(table.drop_first(), w)
    }
}

/// The entries whose names start with a word.
pub open spec fn started(table: Seq<(Seq<char>, u64)>, w: Seq<char>) -> Seq<(Seq<char>, u64)>
    decreases table.len(),
{
    if table.len() == 0 {
        Seq::empty()
    } else if text::begins(table.last().0, w) {
        started(table.drop_last(), w).push(table.last())
    } else {
        started(table.drop_last(), w)
    }
}

/// The names of entries with `or` between them.
pub open spec fn listed(entries: Seq<(Seq<char>, u64)>) -> Seq<char>
    decreases entries.len(),
{
    if entries.len() == 0 {
        Seq::empty()
    } else if entries.len() == 1 {
        entries[0].0
    } else {
        listed(entries.drop_last()) + " or "@ + entries.last().0
    }
}

/// What a word means by a table: the entry of that name, or else the entries
/// that start with it, if they all mean the same.
pub open spec fn meaning(word: Seq<char>, table: Seq<(Seq<char>, u64)>) -> Meaning {
    let w = text::lower(text::trim(word));
    if w.len() == 0 {
        Meaning::Unknown
    } else {
        match exact(table, w) {
            Some(v) => Meaning::Found(v),
            None => {
                let m = started(table, w);
                if m.len() == 0 {
                    Meaning::Unknown
                } else if exists|i: int| 0 <= i < m.len() && (#[trigger] m[i]).1 != m[0].1 {
                    Meaning::Ambiguous(listed(m))
                } else {
                    Meaning::Found(m[0].1)
                }
            },
        }
    }
}

/// The character classes of a size or age condition.
#[derive(Clone, Copy)]
pub enum CharClass {
    Space,
    Letter,
    Digit,
}

impl CharClass {
    pub open spec fn has(self, c: char) -> bool {
        match self {
            CharClass::Space => c == ' ' || c == '\t' || c == '\n' || c == '\r' || c == '\u{c}',
            CharClass::Letter => 'a' <= c <= 'z' || 'A' <= c <= 'Z',
            CharClass::Digit => '0' <= c <= '9',
        }
    }
}

/// Where the characters of a class that start at `i` end.
pub open spec fn run_end(s: Seq<char>, i: nat, class: CharClass) -> nat
    decreases s.len() - i,
{
    if i < s.len() && class.has(s[i as int]) {
        run_end(s, i + 1, class)
    } else {
        i
    }
}

/// The number that digits stand for.
pub open spec fn number(s: Seq<char>) -> nat
    decreases s.len(),
{
    if s.len() == 0 {
        0
    } else {
        number(s.drop_last()) * 10 + (s.last() as nat - '0' as nat) as nat
    }
}

/// The first byte of a character in UTF-8, as a character.
pub open spec fn first_byte(c: char) -> char {
    let n = c as u32 as int;
    if n < 0x80 {
        c
    } else if n < 0x800 {
        (0xc0 + n / 0x40) as char
    } else if n < 0x1_0000 {
        (0xe0 + n / 0x1000) as char
    } else {
        (0xf0 + n / 0x4_0000) as char
    }
}

/// What a size or age condition with these parts stands for, or the warning.
pub open spec fn resolved(keyword: Seq<char>, op: CmpOp, value: u64, unit: Seq<char>) -> Result<
    KindView,
    Seq<char>,
> {
    let ks = if keyword.len() == 0 {
        Meaning::Found(0)
    } else {
        meaning(keyword, size_keywords())
    };
    let ka = if keyword.len() == 0 {
        Meaning::Found(1)
    } else {
        meaning(keyword, age_keywords())
    };
    let us = meaning(unit, size_units());
    let ua = meaning(unit, age_units());
    if ks is Ambiguous {
        Err("ambiguous keyword '"@ + keyword + "' (could be "@ + ks->Ambiguous_0 + ")"@)
    } else if ka is Ambiguous {
        Err("ambiguous keyword '"@ + keyword + "' (could be "@ + ka->Ambiguous_0 + ")"@)
    } else if unit.len() > 0 && us is Ambiguous {
        Err("ambiguous unit '"@ + unit + "' (could be "@ + us->Ambiguous_0 + ")"@)
    } else if unit.len() > 0 && ua is Ambiguous {
        Err("ambiguous unit '"@ + unit + "' (could be "@ + ua->Ambiguous_0 + ")"@)
    } else {
        let size = ks is Found && (unit.len() == 0 || us is Found);
        let age = ka is Found && unit.len() > 0 && ua is Found;
        if size && !age {
            let bytes = value * (if unit.len() == 0 {
                1
            } else {
                us->Found_0 as int
            });
            if bytes <= u64::MAX {
                Ok(KindView::Size { metric: metric_of(ks->Found_0), op, bytes: bytes as u64 })
            } else {
                Err("size value is too large"@)
            }
        } else if age && !size {
            let seconds = value * ua->Found_0;
            if seconds <= u64::MAX {
                Ok(KindView::Age { field: field_of(ka->Found_0), op, seconds: seconds as u64 })
            } else {
                Err("age value is too large"@)
            }
        } else if size && age {
            Err("ambiguous size/age condition"@)
        } else if keyword.len() > 0 && ks is Unknown && ka is Unknown {
            Err("unknown size/age keyword '"@ + keyword + "'"@)
        } else if unit.len() > 0 && us is Unknown && ua is Unknown {
            Err("unknown unit '"@ + unit + "'"@)
        } else if ka is Found && unit.len() == 0 && ks is Unknown {
            Err("age condition '"@ + keyword + "' needs a unit (seconds..years)"@)
        } else {
            Err("malformed size/age condition (expected e.g. '>100kb' or '<3months')"@)
        }
    }
}

/// A size or age condition: a keyword, `<` or `>`, a number and a unit, with
/// spaces between them or not.
pub open spec fn measure(s: Seq<char>) -> Result<KindView, Seq<char>> {
    let k0 = run_end(s, 0, CharClass::Space);
    let k1 = run_end(s, k0, CharClass::Letter);
    let o = run_end(s, k1, CharClass::Space);
    let n0 = run_end(s, o + 1, CharClass::Space);
    let n1 = run_end(s, n0, CharClass::Digit);
    let u0 = run_end(s, n1, CharClass::Space);
    let u1 = run_end(s, u0, CharClass::Letter);
    let end = run_end(s, u1, CharClass::Space);
    let value = number(s.subrange(n0 as int, n1 as int));
    if o >= s.len() {
        Err("expected '<' or '>'"@)
    } else if s[o as int] != '<' && s[o as int] != '>' {
        Err("expected '<' or '>', found '"@ + seq![first_byte(s[o as int])] + "'"@)
    } else if n0 < s.len() && s[n0 as int] == '=' {
        Err("'=' is not supported; use '<' or '>'"@)
    } else if n0 == n1 {
        Err("expected a number after the operator"@)
    } else if value > u64::MAX {
        Err("number is too large"@)
    } else if end != s.len() {
        Err("unexpected character '"@ + seq![first_byte(s[end as int])] + "'"@)
    } else {
        resolved(
            s.subrange(k0 as int, k1 as int),
            if s[o as int] == '<' {
                CmpOp::Lt
            } else {
                CmpOp::Gt
            },
            value as u64,
            s.subrange(u0 as int, u1 as int),
        )
    }
}

/// A sign of a signed list.
pub open spec fn is_sign(c: char) -> bool {
    c == '+' || c == '-'
}

/// How many characters at the start of a text are no signs.
pub open spec fn unsigned_len(s: Seq<char>) -> nat
    decreases s.len(),
{
    if s.len() == 0 || is_sign(s[0]) {
        0
    } else {
        1 + unsigned_len(s.drop_first())
    }
}

/// The items between the signs of a text, each with whether the sign before it
/// is a minus.
pub open spec fn segments(s: Seq<char>, minus: bool) -> Seq<(bool, Seq<char>)>
    decreases s.len(),
{
    if s.len() == 0 {
        Seq::empty()
    } else if is_sign(s[0]) {
        segments(s.drop_first(), s[0] == '-')
    } else if 1 <= unsigned_len(s) <= s.len() {
        let n = unsigned_len(s) as int;
        seq![(minus, s.take(n))] + segments(s.skip(n), minus)
    } else {
        Seq::empty()
    }
}

/// The items of a list in which commas separate texts with signs, up to the
/// first text without an item, and whether there is no such text.
pub open spec fn signed(s: Seq<char>) -> (Seq<(bool, Seq<char>)>, bool)
    decreases s.len(),
{
    let n = text::find(s, ',') as int;
    let items = segments(s.take(n), false);
    if items.len() == 0 {
        (Seq::empty(), false)
    } else if n >= s.len() {
        (items, true)
    } else {
        let rest = signed(s.skip(n + 1));
        (items + rest.0, rest.1)
    }
}

/// The tag that a word stands for.
pub open spec fn tag_word(w: Seq<char>) -> Option<Tag> {
    if w == "red"@ || w == "r"@ || w == "1"@ {
        Some(Tag::Red)
    } else if w == "yellow"@ || w == "y"@ || w == "2"@ {
        Some(Tag::Yellow)
    } else if w == "green"@ || w == "g"@ || w == "3"@ {
        Some(Tag::Green)
    } else if w == "blue"@ || w == "b"@ || w == "4"@ {
        Some(Tag::Blue)
    } else {
        None
    }
}

/// Whether a word stands for all tags.
pub open spec fn is_all(w: Seq<char>) -> bool {
    w == "all"@ || w == "a"@
}

/// The tags that an item of a tag expression stands for.
pub open spec fn item_tags(name: Seq<char>) -> Result<u8, Seq<char>> {
    let w = text::lower(text::trim(name));
    if is_all(w) {
        Ok(TagSet::ALL)
    } else {
        match tag_word(w) {
            Some(t) => Ok(filter_ast::tag_bit(t)),
            None => Err("unknown tag '"@ + w + "'"@),
        }
    }
}

/// The tag expression of a list of items.
pub open spec fn tags_of(items: Seq<(bool, Seq<char>)>) -> Result<TagExpr, Seq<char>>
    decreases items.len(),
{
    if items.len() == 0 {
        Ok(TagExpr { included: TagSet(0), excluded: TagSet(0) })
    } else {
        match (tags_of(items.drop_last()), item_tags(items.last().1)) {
            (Err(m), _) => Err(m),
            (Ok(_), Err(m)) => Err(m),
            (Ok(e), Ok(bits)) => Ok(
                if items.last().0 {
                    TagExpr { included: e.included, excluded: TagSet(e.excluded.0 | bits) }
                } else {
                    TagExpr { included: TagSet(e.included.0 | bits), excluded: e.excluded }
                },
            ),
        }
    }
}

/// A tag expression such as `red+green-b` or `1,3,-red`.
pub open spec fn tag_expr(payload: Seq<char>) -> Result<TagExpr, Seq<char>> {
    let (items, whole) = signed(payload);
    match tags_of(items) {
        Err(m) => Err(m),
        Ok(e) => if !whole {
            Err("empty item in '"@ + payload + "'"@)
        } else if e.included.0 == 0 && e.excluded.0 == 0 {
            Err("empty tag expression"@)
        } else {
            Ok(e)
        },
    }
}

/// The attribute that a name stands for.
pub open spec fn attr_of(name: Seq<char>) -> Result<NodeFlags, Seq<char>> {
    match meaning(name, attr_names()) {
        Meaning::Found(v) => Ok(NodeFlags(v as u32)),
        Meaning::Ambiguous(names) => Err(
            "ambiguous attribute '"@ + name + "' (could be "@ + names + ")"@,
        ),
        Meaning::Unknown => Err("unknown attribute '"@ + name + "'"@),
    }
}

/// The attribute tests of a list of items.
pub open spec fn attrs_of(items: Seq<(bool, Seq<char>)>) -> Result<Seq<AttrTest>, Seq<char>>
    decreases items.len(),
{
    if items.len() == 0 {
        Ok(Seq::empty())
    } else {
        match (attrs_of(items.drop_last()), attr_of(text::trim(items.last().1))) {
            (Err(m), _) => Err(m),
            (Ok(_), Err(m)) => Err(m),
            (Ok(tests), Ok(flags)) => Ok(
                tests.push(
                    AttrTest {
                        flags,
                        requirement: if items.last().0 {
                            AttrRequirement::Clear
                        } else {
                            AttrRequirement::IsSet
                        },
                    },
                ),
            ),
        }
    }
}

/// An attribute expression such as `+a-ro,h`.
pub open spec fn attr_expr(payload: Seq<char>) -> Result<Seq<AttrTest>, Seq<char>> {
    let (items, whole) = signed(payload);
    match attrs_of(items) {
        Err(m) => Err(m),
        Ok(tests) => if !whole {
            Err("empty item in '"@ + payload + "'"@)
        } else if tests.len() == 0 {
            Err("empty attribute expression"@)
        } else {
            Ok(tests)
        },
    }
}

/// The first class of a name, whatever its case.
pub open spec fn class_of(classes: Seq<ClassView>, name: Seq<char>) -> Option<ClassView>
    decreases classes.len(),
{
    if classes.len() == 0 {
        None
    } else if text::same_ascii(classes[0].name, name) {
        Some(classes[0])
    } else {
        class_of(classes.drop_first(), name)
    }
}

/// What follows the first `n` characters of a text, without white space around it.
pub open spec fn payload_after(s: Seq<char>, n: nat) -> Seq<char> {
    text::trim(
        if n <= s.len() {
            s.skip(n as int)
        } else {
            Seq::empty()
        },
    )
}

/// The payload of a command with one of two prefixes, if `lower` has one.
pub open spec fn payload_of(cmd: Seq<char>, lower: Seq<char>, a: Seq<char>, b: Seq<char>) -> Option<
    Seq<char>,
> {
    if text::begins(lower, a) {
        Some(payload_after(cmd, a.len()))
    } else if text::begins(lower, b) {
        Some(payload_after(cmd, b.len()))
    } else {
        None
    }
}

/// A condition that started with a colon. `lower` is its text in lower case.
pub open spec fn command(
    cmd: Seq<char>,
    lower: Seq<char>,
    negated: bool,
    classes: Seq<ClassView>,
) -> Result<KindView, Seq<char>> {
    match payload_of(cmd, lower, "tag:"@, "tags:"@) {
        Some(p) => match tag_expr(p) {
            Ok(expr) => Ok(KindView::Tag { expr, negated }),
            Err(m) => Err(m),
        },
        None => match payload_of(cmd, lower, "attr:"@, "attrs:"@) {
            Some(p) => match attr_expr(p) {
                Ok(tests) => Ok(KindView::Attr { tests, negated }),
                Err(m) => Err(m),
            },
            None => match payload_of(cmd, lower, "class:"@, "class:"@) {
                Some(p) => if p.len() == 0 {
                    Err("empty file class name"@)
                } else {
                    match class_of(classes, p) {
                        Some(c) => Ok(
                            KindView::Class { name: c.name, extensions: c.extensions, negated },
                        ),
                        None => Err("unknown file class '"@ + p + "'"@),
                    }
                },
                None => if is_all(lower) {
                    Ok(
                        KindView::Tag {
                            expr: TagExpr { included: TagSet(TagSet::ALL), excluded: TagSet(0) },
                            negated,
                        },
                    )
                } else {
                    match tag_word(lower) {
                        Some(t) => Ok(
                            KindView::Tag {
                                expr: TagExpr {
                                    included: TagSet(filter_ast::tag_bit(t)),
                                    excluded: TagSet(0),
                                },
                                negated,
                            },
                        ),
                        None => Err("unknown filter command ':"@ + cmd + "'"@),
                    }
                },
            },
        },
    }
}

/// The condition of a text without white space around it.
pub open spec fn condition(s: Seq<char>, classes: Seq<ClassView>) -> Result<KindView, Seq<char>> {
    let negated = s.len() > 0 && s[0] == '|';
    let rest = if negated {
        text::trim_start(s.drop_first())
    } else {
        s
    };
    if rest.len() == 0 {
        Err("empty condition"@)
    } else if rest[0] == '\\' {
        if rest.len() == 1 {
            Err("empty folder mask after '\\'"@)
        } else {
            Ok(KindView::FolderMask { pattern: rest.drop_first(), negated })
        }
    } else if rest[0] == ':' {
        let cmd = rest.drop_first();
        command(cmd, text::lower(cmd), negated, classes)
    } else if rest.contains('<') || rest.contains('>') {
        if negated {
            Err("negation '|' is only supported for masks, tags, attributes and classes"@)
        } else {
            measure(rest)
        }
    } else {
        Ok(KindView::FileMask { pattern: rest, negated })
    }
}

/// Where the text of a piece that starts at byte `start` lies.
pub open spec fn span_of(piece: Seq<char>, start: nat) -> Span {
    let first = start + text::byte_len(piece) - text::byte_len(text::trim_start(piece));
    Span {
        start: first as usize,
        end: (first + text::byte_len(text::trim(piece))) as usize,
    }
}

/// The conditions and warnings of the pieces of a text that starts at byte
/// `start` of the filter string.
pub open spec fn pieces(s: Seq<char>, start: nat, classes: Seq<ClassView>) -> (
    Seq<ConditionView>,
    Seq<WarningView>,
)
    decreases s.len(),
{
    let n = text::find(s, ';') as int;
    let piece = s.take(n);
    let rest = if n >= s.len() {
        (Seq::empty(), Seq::empty())
    } else {
        pieces(s.skip(n + 1), start + text::byte_len(piece) + 1, classes)
    };
    if text::trim(piece).len() == 0 {
        rest
    } else {
        let span = span_of(piece, start);
        match condition(text::trim(piece), classes) {
            Ok(kind) => (seq![ConditionView { kind, span }] + rest.0, rest.1),
            Err(message) => (rest.0, seq![WarningView { span, message }] + rest.1),
        }
    }
}

/// The conditions and warnings of a filter string.
pub open spec fn parsed(input: Seq<char>, classes: Seq<ClassView>) -> (
    Seq<ConditionView>,
    Seq<WarningView>,
) {
    pieces(input, 0, classes)
}

} // verus!
