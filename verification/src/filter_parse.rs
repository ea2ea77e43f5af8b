//! The parser of filter strings.
use vstd::prelude::*;
use vstd::string::*;

use crate::filter_ast;
use crate::filter_ast::{
    AgeField, AttrRequirement, AttrTest, CmpOp, Condition, ConditionKind, ConditionView,
    FileClass, KindView, ParseWarning, SizeMetric, Span, TagExpr, TagSet, WarningView,
};
use crate::filter_grammar;
use crate::filter_grammar::{CharClass, Meaning};
use crate::node::{NodeFlags, Tag};
use crate::text;

verus! {

/// What looking a word up gave.
enum Lookup {
    Found(u64),
    Ambiguous(String),
    Unknown,
}

impl View for Lookup {
    type V = Meaning;

    closed spec fn view(&self) -> Meaning {
        match *self {
            Lookup::Found(v) => Meaning::Found(v),
            Lookup::Ambiguous(names) => Meaning::Ambiguous(names@),
            Lookup::Unknown => Meaning::Unknown,
        }
    }
}

/// A table of words in mathematical terms.
spec fn table_view(table: Seq<(&str, u64)>) -> Seq<(Seq<char>, u64)> {
    Seq::new(table.len(), |i: int| (table[i].0@, table[i].1))
}

fn age_units() -> (table: Vec<(&'static str, u64)>)
    ensures
        table_view(table@) == filter_grammar::age_units(),
{
    let table: Vec<(&'static str, u64)> = vec![
        ("seconds", 1),
        ("minutes", 60),
        ("hours", 3_600),
        ("days", 86_400),
        ("weeks", 604_800),
        ("months", 2_592_000),
        ("years", 31_536_000),
    ];
    proof {
        assert(table_view(table@) =~= filter_grammar::age_units());
    }
    table
}

fn size_units() -> (table: Vec<(&'static str, u64)>)
    ensures
        table_view(table@) == filter_grammar::size_units(),
{
    let table: Vec<(&'static str, u64)> = vec![
        ("b", 1),
        ("kb", 1_024),
        ("mb", 1_048_576),
        ("gb", 1_073_741_824),
        ("tb", 1_099_511_627_776),
    ];
    proof {
        assert(table_view(table@) =~= filter_grammar::size_units());
    }
    table
}

fn size_keywords() -> (table: Vec<(&'static str, u64)>)
    ensures
        table_view(table@) == filter_grammar::size_keywords(),
{
    let table: Vec<(&'static str, u64)> = vec![
        ("disksize", 0),
        ("clustersize", 0),
        ("filesize", 1),
        ("logicalsize", 1),
        ("size", 0),
        ("disk", 0),
        ("dsk", 0),
        ("dsksz", 0),
    ];
    proof {
        assert(table_view(table@) =~= filter_grammar::size_keywords());
    }
    table
}

fn age_keywords() -> (table: Vec<(&'static str, u64)>)
    ensures
        table_view(table@) == filter_grammar::age_keywords(),
{
    let table: Vec<(&'static str, u64)> = vec![
        ("creation", 0),
        ("created", 0),
        ("modify", 1),
        ("modified", 1),
        ("access", 2),
        ("accessed", 2),
    ];
    proof {
        assert(table_view(table@) =~= filter_grammar::age_keywords());
    }
    table
}

fn attr_names() -> (table: Vec<(&'static str, u64)>)
    ensures
        table_view(table@) == filter_grammar::attr_names(),
{
    let table: Vec<(&'static str, u64)> = vec![
        ("archive", NodeFlags::ARCHIVE as u64),
        ("a", NodeFlags::ARCHIVE as u64),
        ("system", NodeFlags::SYSTEM as u64),
        ("readonly", NodeFlags::READONLY as u64),
        ("ro", NodeFlags::READONLY as u64),
        ("hidden", NodeFlags::HIDDEN as u64),
        ("compressed", NodeFlags::COMPRESSED as u64),
        ("encrypted", NodeFlags::ENCRYPTED as u64),
        ("offline", NodeFlags::OFFLINE as u64),
        ("temporary", NodeFlags::TEMPORARY as u64),
        ("notindexed", NodeFlags::NOT_INDEXED as u64),
        ("sparse", NodeFlags::SPARSE as u64),
        ("sp", NodeFlags::SPARSE as u64),
        ("ads", NodeFlags::ADS as u64),
    ];
    proof {
        assert(table_view(table@) =~= filter_grammar::attr_names());
    }
    table
}

/// A text with something before and after it.
fn around(before: &str, word: &Vec<char>, after: &str) -> (s: String)
    ensures
        s@ == before@ + word@ + after@,
{
    let mut s: String = before.to_owned();
    s.append(text::text_of(word).as_str());
    s.append(after);
    s
}

/// A warning's message on a word that can stand for several.
fn ambiguous(before: &str, word: &Vec<char>, names: &str) -> (s: String)
    ensures
        s@ == before@ + word@ + "' (could be "@ + names@ + ")"@,
{
    let mut s = around(before, word, "' (could be ");
    s.append(names);
    s.append(")");
    s
}

/// The entry of that very name.
fn exact(w: &Vec<char>, table: &Vec<(&'static str, u64)>) -> (r: Option<u64>)
    ensures
        r == filter_grammar::exact(table_view(table@), w@),
{
    let ghost t = table_view(table@);
    proof {
        assert(t.skip(0) =~= t);
    }
    for i in 0..table.len()
        invariant
            t == table_view(table@),
            filter_grammar::exact(t, w@) == filter_grammar::exact(t.skip(i as int), w@),
    {
        proof {
            assert(t.skip(i as int)[0] == t[i as int]);
            assert(t.skip(i as int).drop_first() =~= t.skip(i + 1));
        }
        if text::is_text(w, table[i].0) {
            return Some(table[i].1);
        }
    }
    None
}

/// Looks a word up: the entry of that name, or else the entries that start with
/// it, if they all mean the same.
fn lookup(word: &Vec<char>, table: &Vec<(&'static str, u64)>) -> (r: Lookup)
    ensures
        r@ == filter_grammar::meaning(word@, table_view(table@)),
{
    let w = text::lowered(&text::trimmed(word));
    if w.len() == 0 {
        return Lookup::Unknown;
    }
    if let Some(v) = exact(&w, table) {
        return Lookup::Found(v);
    }
    let ghost t = table_view(table@);
    let mut first: Option<u64> = None;
    let mut differ: bool = false;
    let mut names: String = String::new();
    let ghost mut m: Seq<(Seq<char>, u64)> = Seq::empty();
    for i in 0..table.len()
        invariant
            t == table_view(table@),
            m == filter_grammar::started(t.take(i as int), w@),
            names@ == filter_grammar::listed(m),
            first is Some == (m.len() > 0),
            first is Some ==> first->0 == m[0].1,
            differ == exists|j: int| 0 <= j < m.len() && (#[trigger] m[j]).1 != m[0].1,
    {
        let (name, value): (&'static str, u64) = table[i];
        let ghost before = m;
        proof {
            assert(t.take(i + 1).drop_last() =~= t.take(i as int));
            assert(t.take(i + 1).last() == t[i as int]);
        }
        if text::starts(&text::chars_of(name), &w) {
            proof {
                m = before.push(t[i as int]);
                assert(m.drop_last() =~= before);
                assert(forall|j: int| 0 <= j < before.len() ==> m[j] == before[j]);
            }
            match first {
                None => {
                    first = Some(value);
                    names = name.to_owned();
                },
                Some(v) => {
                    proof {
                        assert(m[before.len() as int].1 == value);
                        if differ {
                            let j = choose|j: int|
                                0 <= j < before.len() && (#[trigger] before[j]).1 != before[0].1;
                            assert(m[j].1 != m[0].1);
                        }
                    }
                    if v != value {
                        differ = true;
                    }
                    names.append(" or ");
                    names.append(name);
                },
            }
        }
    }
    proof {
        assert(t.take(t.len() as int) =~= t);
    }
    match first {
        None => Lookup::Unknown,
        Some(v) => if differ {
            Lookup::Ambiguous(names)
        } else {
            Lookup::Found(v)
        },
    }
}

fn lookup_attr(name: &Vec<char>) -> (r: Result<NodeFlags, String>)
    ensures
        match r {
            Ok(f) => filter_grammar::attr_of(name@) == Ok::<NodeFlags, Seq<char>>(f),
            Err(m) => filter_grammar::attr_of(name@) == Err::<NodeFlags, Seq<char>>(m@),
        },
{
    match lookup(name, &attr_names()) {
        Lookup::Found(v) => Ok(NodeFlags(v as u32)),
        Lookup::Ambiguous(names) => Err(
            ambiguous("ambiguous attribute '", name, names.as_str()),
        ),
        Lookup::Unknown => Err(around("unknown attribute '", name, "'")),
    }
}

/// An item of a signed list.
struct Item {
    minus: bool,
    name: Vec<char>,
}

/// Items in mathematical terms.
spec fn item_views(items: Seq<Item>) -> Seq<(bool, Seq<char>)> {
    Seq::new(items.len(), |i: int| (items[i].minus, items[i].name@))
}

proof fn lemma_unsigned(s: Seq<char>)
    ensures
        filter_grammar::unsigned_len(s) <= s.len(),
    decreases s.len(),
{
    if s.len() > 0 {
        lemma_unsigned(s.drop_first());
    }
}

/// Where the characters from `from` on that are no signs end.
fn unsigned_end(s: &Vec<char>, from: usize) -> (n: usize)
    requires
        from <= s@.len(),
    ensures
        n == from + filter_grammar::unsigned_len(s@.skip(from as int)),
        n <= s@.len(),
{
    let mut n: usize = from;
    while n < s.len() && s[n] != '+' && s[n] != '-'
        invariant
            from <= n <= s@.len(),
            from + filter_grammar::unsigned_len(s@.skip(from as int)) == n
                + filter_grammar::unsigned_len(s@.skip(n as int)),
        decreases s@.len() - n,
    {
        proof {
            assert(s@.skip(n as int)[0] == s@[n as int]);
            assert(s@.skip(n as int).drop_first() =~= s@.skip(n + 1));
        }
        n = n + 1;
    }
    proof {
        if n < s@.len() {
            assert(s@.skip(n as int)[0] == s@[n as int]);
        }
    }
    n
}

/// The items between the signs of a text.
fn segments(s: &Vec<char>) -> (items: Vec<Item>)
    ensures
        item_views(items@) == filter_grammar::segments(s@, false),
{
    let mut items: Vec<Item> = Vec::new();
    let mut minus: bool = false;
    let mut i: usize = 0;
    proof {
        assert(s@.skip(0) =~= s@);
        assert(item_views(items@) =~= Seq::empty());
        assert(filter_grammar::segments(s@, false) =~= item_views(items@)
            + filter_grammar::segments(s@.skip(0), false));
    }
    while i < s.len()
        invariant
            i <= s@.len(),
            filter_grammar::segments(s@, false) == item_views(items@) + filter_grammar::segments(
                s@.skip(i as int),
                minus,
            ),
        decreases s@.len() - i,
    {
        let ghost rest = s@.skip(i as int);
        proof {
            assert(rest[0] == s@[i as int]);
        }
        if s[i] == '+' || s[i] == '-' {
            proof {
                assert(rest.drop_first() =~= s@.skip(i + 1));
            }
            minus = s[i] == '-';
            i = i + 1;
        } else {
            proof {
                lemma_unsigned(rest);
            }
            let end: usize = unsigned_end(s, i);
            let name = text::part(s, i, end);
            let ghost before = item_views(items@);
            let ghost n = end - i;
            items.push(Item { minus, name });
            proof {
                assert(rest.take(n) =~= name@);
                assert(rest.skip(n) =~= s@.skip(end as int));
                assert(item_views(items@) =~= before.push((minus, name@)));
                let tail = filter_grammar::segments(s@.skip(end as int), minus);
                assert(before + (seq![(minus, name@)] + tail) =~= before.push((minus, name@)) + tail);
            }
            i = end;
        }
    }
    proof {
        assert(item_views(items@) + Seq::<(bool, Seq<char>)>::empty() =~= item_views(items@));
    }
    items
}

/// The items of a signed list up to the first text without an item, and whether
/// there is no such text.
fn signed_items(payload: &Vec<char>) -> (r: (Vec<Item>, bool))
    ensures
        (item_views(r.0@), r.1) == filter_grammar::signed(payload@),
{
    let mut items: Vec<Item> = Vec::new();
    let mut from: usize = 0;
    proof {
        assert(payload@.skip(0) =~= payload@);
        assert(item_views(items@) =~= Seq::empty());
        assert(filter_grammar::signed(payload@).0 =~= item_views(items@)
            + filter_grammar::signed(payload@.skip(0)).0);
    }
    loop
        invariant
            from <= payload@.len(),
            filter_grammar::signed(payload@).0 == item_views(items@) + filter_grammar::signed(
                payload@.skip(from as int),
            ).0,
            filter_grammar::signed(payload@).1 == filter_grammar::signed(
                payload@.skip(from as int),
            ).1,
        decreases payload@.len() - from,
    {
        let end: usize = text::find_from(payload, from, ',');
        let ghost rest = payload@.skip(from as int);
        let part = text::part(payload, from, end);
        let mut more = segments(&part);
        let ghost before = items@;
        let ghost found = more@;
        proof {
            assert(rest.take(end - from) =~= part@);
        }
        if more.len() == 0 {
            proof {
                assert(item_views(items@) + Seq::<(bool, Seq<char>)>::empty() =~= item_views(
                    items@,
                ));
            }
            return (items, false);
        }
        items.append(&mut more);
        proof {
            assert(item_views(items@) =~= item_views(before) + item_views(found));
        }
        if end == payload.len() {
            return (items, true);
        }
        proof {
            assert(rest.skip(end - from + 1) =~= payload@.skip(end + 1));
            let tail = filter_grammar::signed(payload@.skip(end + 1)).0;
            assert(item_views(before) + (item_views(found) + tail) =~= item_views(items@) + tail);
        }
        from = end + 1;
    }
}

fn tag_of(w: &Vec<char>) -> (r: Option<Tag>)
    ensures
        r == filter_grammar::tag_word(w@),
{
    if text::is_text(w, "red") || text::is_text(w, "r") || text::is_text(w, "1") {
        Some(Tag::Red)
    } else if text::is_text(w, "yellow") || text::is_text(w, "y") || text::is_text(w, "2") {
        Some(Tag::Yellow)
    } else if text::is_text(w, "green") || text::is_text(w, "g") || text::is_text(w, "3") {
        Some(Tag::Green)
    } else if text::is_text(w, "blue") || text::is_text(w, "b") || text::is_text(w, "4") {
        Some(Tag::Blue)
    } else {
        None
    }
}

fn is_all(w: &Vec<char>) -> (r: bool)
    ensures
        r == filter_grammar::is_all(w@),
{
    text::is_text(w, "all") || text::is_text(w, "a")
}

/// A condition of one tag, or of all: `:red`, `:r`, `:1`, `:all`, `:a`.
fn legacy_tag(w: &Vec<char>) -> (r: Option<TagExpr>)
    ensures
        r == if filter_grammar::is_all(w@) {
            Some(TagExpr { included: TagSet(TagSet::ALL), excluded: TagSet(0) })
        } else {
            match filter_grammar::tag_word(w@) {
                Some(t) => Some(
                    TagExpr { included: TagSet(filter_ast::tag_bit(t)), excluded: TagSet(0) },
                ),
                None => None,
            }
        },
{
    if is_all(w) {
        return Some(TagExpr { included: TagSet(TagSet::ALL), excluded: TagSet(TagSet::EMPTY) });
    }
    match tag_of(w) {
        Some(t) => Some(
            TagExpr { included: TagSet::from_tag(t), excluded: TagSet(TagSet::EMPTY) },
        ),
        None => None,
    }
}

/// The tags that an item of a tag expression stands for.
fn item_tags(name: &Vec<char>) -> (r: Result<TagSet, String>)
    ensures
        match r {
            Ok(set) => filter_grammar::item_tags(name@) == Ok::<u8, Seq<char>>(set.0),
            Err(m) => filter_grammar::item_tags(name@) == Err::<u8, Seq<char>>(m@),
        },
{
    let w = text::lowered(&text::trimmed(name));
    if is_all(&w) {
        return Ok(TagSet(TagSet::ALL));
    }
    match tag_of(&w) {
        Some(t) => Ok(TagSet::from_tag(t)),
        None => Err(around("unknown tag '", &w, "'")),
    }
}

proof fn lemma_tags_stay_wrong(items: Seq<(bool, Seq<char>)>, n: int)
    requires
        0 <= n <= items.len(),
        filter_grammar::tags_of(items.take(n)) is Err,
    ensures
        filter_grammar::tags_of(items) == filter_grammar::tags_of(items.take(n)),
    decreases items.len() - n,
{
    if n < items.len() {
        assert(items.take(n + 1).drop_last() =~= items.take(n));
        lemma_tags_stay_wrong(items, n + 1);
    } else {
        assert(items.take(n) =~= items);
    }
}

proof fn lemma_attrs_stay_wrong(items: Seq<(bool, Seq<char>)>, n: int)
    requires
        0 <= n <= items.len(),
        filter_grammar::attrs_of(items.take(n)) is Err,
    ensures
        filter_grammar::attrs_of(items) == filter_grammar::attrs_of(items.take(n)),
    decreases items.len() - n,
{
    if n < items.len() {
        assert(items.take(n + 1).drop_last() =~= items.take(n));
        lemma_attrs_stay_wrong(items, n + 1);
    } else {
        assert(items.take(n) =~= items);
    }
}

/// A tag expression such as `red+green-b` or `1,3,-red`: items without a sign or
/// with a plus are included, those with a minus excluded.
fn parse_tag_expr(payload: &Vec<char>) -> (r: Result<TagExpr, String>)
    ensures
        match r {
            Ok(e) => filter_grammar::tag_expr(payload@) == Ok::<TagExpr, Seq<char>>(e),
            Err(m) => filter_grammar::tag_expr(payload@) == Err::<TagExpr, Seq<char>>(m@),
        },
{
    let mut included = TagSet(TagSet::EMPTY);
    let mut excluded = TagSet(TagSet::EMPTY);
    let (items, whole) = signed_items(payload);
    let ghost all = item_views(items@);
    for i in 0..items.len()
        invariant
            all == item_views(items@),
            filter_grammar::signed(payload@) == (all, whole),
            filter_grammar::tags_of(all.take(i as int)) == Ok::<TagExpr, Seq<char>>(
                TagExpr { included, excluded },
            ),
    {
        proof {
            assert(all.take(i + 1).drop_last() =~= all.take(i as int));
            assert(all.take(i + 1).last() == (items@[i as int].minus, items@[i as int].name@));
        }
        match item_tags(&items[i].name) {
            Ok(bits) => if items[i].minus {
                excluded.set_union(bits);
            } else {
                included.set_union(bits);
            },
            Err(m) => {
                proof {
                    lemma_tags_stay_wrong(all, i + 1);
                }
                return Err(m);
            },
        }
    }
    proof {
        assert(all.take(all.len() as int) =~= all);
    }
    if !whole {
        return Err(around("empty item in '", payload, "'"));
    }
    if included.is_empty() && excluded.is_empty() {
        return Err("empty tag expression".to_owned());
    }
    Ok(TagExpr { included, excluded })
}

/// An attribute expression such as `+a-ro,h`: a minus asks for an attribute to
/// be clear, a plus or no sign for it to be set.
fn parse_attr_expr(payload: &Vec<char>) -> (r: Result<Vec<AttrTest>, String>)
    ensures
        match r {
            Ok(tests) => filter_grammar::attr_expr(payload@) == Ok::<Seq<AttrTest>, Seq<char>>(
                tests@,
            ),
            Err(m) => filter_grammar::attr_expr(payload@) == Err::<Seq<AttrTest>, Seq<char>>(m@),
        },
{
    let mut tests: Vec<AttrTest> = Vec::new();
    let (items, whole) = signed_items(payload);
    let ghost all = item_views(items@);
    proof {
        assert(tests@ =~= Seq::empty());
    }
    for i in 0..items.len()
        invariant
            all == item_views(items@),
            filter_grammar::signed(payload@) == (all, whole),
            filter_grammar::attrs_of(all.take(i as int)) == Ok::<Seq<AttrTest>, Seq<char>>(tests@),
    {
        proof {
            assert(all.take(i + 1).drop_last() =~= all.take(i as int));
            assert(all.take(i + 1).last() == (items@[i as int].minus, items@[i as int].name@));
        }
        match lookup_attr(&text::trimmed(&items[i].name)) {
            Ok(flags) => {
                tests.push(
                    AttrTest {
                        flags,
                        requirement: if items[i].minus {
                            AttrRequirement::Clear
                        } else {
                            AttrRequirement::IsSet
                        },
                    },
                );
            },
            Err(m) => {
                proof {
                    lemma_attrs_stay_wrong(all, i + 1);
                }
                return Err(m);
            },
        }
    }
    proof {
        assert(all.take(all.len() as int) =~= all);
    }
    if !whole {
        return Err(around("empty item in '", payload, "'"));
    }
    if tests.len() == 0 {
        return Err("empty attribute expression".to_owned());
    }
    Ok(tests)
}

/// A result with a condition or a message in mathematical terms.
spec fn outcome(r: Result<ConditionKind, String>) -> Result<KindView, Seq<char>> {
    match r {
        Ok(kind) => Ok(kind@),
        Err(m) => Err(m@),
    }
}

fn in_class(class: CharClass, c: char) -> (r: bool)
    ensures
        r == class.has(c),
{
    match class {
        CharClass::Space => c == ' ' || c == '\t' || c == '\n' || c == '\r' || c == '\u{c}',
        CharClass::Letter => ('a' <= c && c <= 'z') || ('A' <= c && c <= 'Z'),
        CharClass::Digit => '0' <= c && c <= '9',
    }
}

/// Where the characters of a class that start at `from` end.
fn skip_run(s: &Vec<char>, from: usize, class: CharClass) -> (n: usize)
    requires
        from <= s@.len(),
    ensures
        n == filter_grammar::run_end(s@, from as nat, class),
        from <= n <= s@.len(),
        forall|i: int| from <= i < n ==> class.has(#[trigger] s@[i]),
{
    let mut n: usize = from;
    while n < s.len() && in_class(class, s[n])
        invariant
            from <= n <= s@.len(),
            filter_grammar::run_end(s@, from as nat, class) == filter_grammar::run_end(
                s@,
                n as nat,
                class,
            ),
            forall|i: int| from <= i < n ==> class.has(#[trigger] s@[i]),
        decreases s@.len() - n,
    {
        n = n + 1;
    }
    n
}

proof fn lemma_number_grows(s: Seq<char>, n: int)
    requires
        0 <= n <= s.len(),
    ensures
        filter_grammar::number(s.take(n)) <= filter_grammar::number(s),
    decreases s.len(),
{
    if n < s.len() {
        assert(s.drop_last().take(n) =~= s.take(n));
        lemma_number_grows(s.drop_last(), n);
    } else {
        assert(s.take(n) =~= s);
    }
}

/// The number that digits stand for, if it is not too large.
fn parse_number(digits: &Vec<char>) -> (r: Option<u64>)
    requires
        forall|i: int| 0 <= i < digits@.len() ==> CharClass::Digit.has(#[trigger] digits@[i]),
    ensures
        match r {
            Some(v) => v == filter_grammar::number(digits@),
            None => filter_grammar::number(digits@) > u64::MAX,
        },
{
    let mut v: u64 = 0;
    for i in 0..digits.len()
        invariant
            v == filter_grammar::number(digits@.take(i as int)),
            forall|i: int| 0 <= i < digits@.len() ==> CharClass::Digit.has(#[trigger] digits@[i]),
    {
        proof {
            assert(CharClass::Digit.has(digits@[i as int]));
            assert(digits@.take(i + 1).drop_last() =~= digits@.take(i as int));
            assert(digits@.take(i + 1).last() == digits@[i as int]);
            lemma_number_grows(digits@, i + 1);
        }
        let d: u64 = digits[i] as u64 - '0' as u64;
        let tenfold: u64 = match v.checked_mul(10) {
            Some(t) => t,
            None => {
                return None;
            },
        };
        v = match tenfold.checked_add(d) {
            Some(t) => t,
            None => {
                return None;
            },
        };
    }
    proof {
        assert(digits@.take(digits@.len() as int) =~= digits@);
    }
    Some(v)
}

/// The first byte of a character in UTF-8, as a character.
fn first_byte(c: char) -> (r: char)
    ensures
        r == filter_grammar::first_byte(c),
{
    let n: u32 = c as u32;
    if n < 0x80 {
        c
    } else if n < 0x800 {
        (0xc0 + n / 0x40) as u8 as char
    } else if n < 0x1_0000 {
        (0xe0 + n / 0x1000) as u8 as char
    } else {
        (0xf0 + n / 0x4_0000) as u8 as char
    }
}

/// A message about a character.
fn about_char(before: &str, c: char) -> (s: String)
    ensures
        s@ == before@ + seq![filter_grammar::first_byte(c)] + "'"@,
{
    let mut s: String = before.to_owned();
    s.push(first_byte(c));
    s.append("'");
    proof {
        assert(before@.push(filter_grammar::first_byte(c)) =~= before@
            + seq![filter_grammar::first_byte(c)]);
    }
    s
}

fn metric_of(code: u64) -> (r: SizeMetric)
    ensures
        r == filter_grammar::metric_of(code),
{
    if code == 0 {
        SizeMetric::Disk
    } else {
        SizeMetric::Logical
    }
}

fn field_of(code: u64) -> (r: AgeField)
    ensures
        r == filter_grammar::field_of(code),
{
    if code == 0 {
        AgeField::Creation
    } else if code == 1 {
        AgeField::Modify
    } else {
        AgeField::Access
    }
}

/// Makes a size or an age condition of its parts.
///
/// The unit decides where the keyword leaves it open (`c<3days` is the age since
/// creation, `c>1kb` the cluster size), and `>100` is a size in bytes.
fn resolve_measure(keyword: &Vec<char>, op: CmpOp, value: u64, unit: &Vec<char>) -> (r: Result<
    ConditionKind,
    String,
>)
    ensures
        outcome(r) == filter_grammar::resolved(keyword@, op, value, unit@),
{
    let ks = if keyword.len() == 0 {
        Lookup::Found(0)
    } else {
        lookup(keyword, &size_keywords())
    };
    let ka = if keyword.len() == 0 {
        Lookup::Found(1)
    } else {
        lookup(keyword, &age_keywords())
    };
    let us = lookup(unit, &size_units());
    let ua = lookup(unit, &age_units());
    if let Lookup::Ambiguous(names) = &ks {
        return Err(ambiguous("ambiguous keyword '", keyword, names.as_str()));
    }
    if let Lookup::Ambiguous(names) = &ka {
        return Err(ambiguous("ambiguous keyword '", keyword, names.as_str()));
    }
    if unit.len() > 0 {
        if let Lookup::Ambiguous(names) = &us {
            return Err(ambiguous("ambiguous unit '", unit, names.as_str()));
        }
        if let Lookup::Ambiguous(names) = &ua {
            return Err(ambiguous("ambiguous unit '", unit, names.as_str()));
        }
    }
    let size: Option<(u64, u64)> = match (&ks, &us) {
        (Lookup::Found(m), Lookup::Found(u)) => if unit.len() == 0 {
            Some((*m, 1))
        } else {
            Some((*m, *u))
        },
        (Lookup::Found(m), _) => if unit.len() == 0 {
            Some((*m, 1))
        } else {
            None
        },
        _ => None,
    };
    let age: Option<(u64, u64)> = match (&ka, &ua) {
        (Lookup::Found(f), Lookup::Found(u)) => if unit.len() == 0 {
            None
        } else {
            Some((*f, *u))
        },
        _ => None,
    };
    match (size, age) {
        (Some((metric, mult)), None) => match value.checked_mul(mult) {
            Some(bytes) => Ok(ConditionKind::Size { metric: metric_of(metric), op, bytes }),
            None => Err("size value is too large".to_owned()),
        },
        (None, Some((field, mult))) => match value.checked_mul(mult) {
            Some(seconds) => Ok(ConditionKind::Age { field: field_of(field), op, seconds }),
            None => Err("age value is too large".to_owned()),
        },
        (Some(_), Some(_)) => Err("ambiguous size/age condition".to_owned()),
        (None, None) => {
            let no_size = matches!(ks, Lookup::Unknown);
            let no_age = matches!(ka, Lookup::Unknown);
            if keyword.len() > 0 && no_size && no_age {
                Err(around("unknown size/age keyword '", keyword, "'"))
            } else if unit.len() > 0 && matches!(us, Lookup::Unknown) && matches!(
                ua,
                Lookup::Unknown
            ) {
                Err(around("unknown unit '", unit, "'"))
            } else if matches!(ka, Lookup::Found(_)) && unit.len() == 0 && no_size {
                Err(around("age condition '", keyword, "' needs a unit (seconds..years)"))
            } else {
                Err(
                    "malformed size/age condition (expected e.g. '>100kb' or '<3months')".to_owned(),
                )
            }
        },
    }
}

/// A size or age condition: a keyword, `<` or `>`, a number and a unit.
fn parse_measure(s: &Vec<char>) -> (r: Result<ConditionKind, String>)
    ensures
        outcome(r) == filter_grammar::measure(s@),
{
    let k0: usize = skip_run(s, 0, CharClass::Space);
    let k1: usize = skip_run(s, k0, CharClass::Letter);
    let o: usize = skip_run(s, k1, CharClass::Space);
    if o >= s.len() {
        return Err("expected '<' or '>'".to_owned());
    }
    let op = if s[o] == '<' {
        CmpOp::Lt
    } else if s[o] == '>' {
        CmpOp::Gt
    } else {
        return Err(about_char("expected '<' or '>', found '", s[o]));
    };
    let n0: usize = skip_run(s, o + 1, CharClass::Space);
    if n0 < s.len() && s[n0] == '=' {
        return Err("'=' is not supported; use '<' or '>'".to_owned());
    }
    let n1: usize = skip_run(s, n0, CharClass::Digit);
    if n0 == n1 {
        return Err("expected a number after the operator".to_owned());
    }
    let digits = text::part(s, n0, n1);
    proof {
        assert forall|i: int| 0 <= i < digits@.len() implies CharClass::Digit.has(
            #[trigger] digits@[i],
        ) by {
            assert(digits@[i] == s@[n0 + i]);
        }
    }
    let value: u64 = match parse_number(&digits) {
        Some(v) => v,
        None => {
            return Err("number is too large".to_owned());
        },
    };
    let u0: usize = skip_run(s, n1, CharClass::Space);
    let u1: usize = skip_run(s, u0, CharClass::Letter);
    let end: usize = skip_run(s, u1, CharClass::Space);
    if end != s.len() {
        return Err(about_char("unexpected character '", s[end]));
    }
    resolve_measure(&text::part(s, k0, k1), op, value, &text::part(s, u0, u1))
}

/// The first class of a name, whatever its case.
fn find_class<'a>(classes: &'a [FileClass], name: &Vec<char>) -> (r: Option<&'a FileClass>)
    ensures
        match r {
            Some(c) => filter_grammar::class_of(filter_ast::class_views(classes@), name@) == Some(
                c@,
            ),
            None => filter_grammar::class_of(filter_ast::class_views(classes@), name@) is None,
        },
{
    let ghost all = filter_ast::class_views(classes@);
    proof {
        assert(all.skip(0) =~= all);
    }
    for i in 0..classes.len()
        invariant
            all == filter_ast::class_views(classes@),
            filter_grammar::class_of(all, name@) == filter_grammar::class_of(
                all.skip(i as int),
                name@,
            ),
    {
        proof {
            assert(all.skip(i as int)[0] == all[i as int]);
            assert(all.skip(i as int).drop_first() =~= all.skip(i + 1));
        }
        if text::eq_ignore_ascii(&text::chars_of(classes[i].name.as_str()), name) {
            return Some(&classes[i]);
        }
    }
    None
}

fn copy_texts(list: &Vec<String>) -> (r: Vec<String>)
    ensures
        text::texts(r@) == text::texts(list@),
{
    let mut r: Vec<String> = Vec::new();
    for i in 0..list.len()
        invariant
            r@.len() == i,
            forall|j: int| 0 <= j < i ==> (#[trigger] r@[j])@ == list@[j]@,
    {
        r.push(list[i].clone());
    }
    proof {
        assert(text::texts(r@) =~= text::texts(list@));
    }
    r
}

/// What follows the first `n` characters of a text, without white space around it.
fn payload_after(s: &Vec<char>, n: usize) -> (r: Vec<char>)
    ensures
        r@ == filter_grammar::payload_after(s@, n as nat),
{
    if n <= s.len() {
        proof {
            assert(s@.subrange(n as int, s@.len() as int) =~= s@.skip(n as int));
        }
        text::trimmed(&text::part(s, n, s.len()))
    } else {
        let none: Vec<char> = Vec::new();
        proof {
            assert(none@ =~= Seq::empty());
        }
        text::trimmed(&none)
    }
}

/// The payload of a command with one of two prefixes.
fn payload_of(cmd: &Vec<char>, lower: &Vec<char>, a: &str, b: &str) -> (r: Option<Vec<char>>)
    ensures
        match r {
            Some(p) => filter_grammar::payload_of(cmd@, lower@, a@, b@) == Some(p@),
            None => filter_grammar::payload_of(cmd@, lower@, a@, b@) is None,
        },
{
    let first = text::chars_of(a);
    if text::starts(lower, &first) {
        return Some(payload_after(cmd, first.len()));
    }
    let second = text::chars_of(b);
    if text::starts(lower, &second) {
        return Some(payload_after(cmd, second.len()));
    }
    None
}

/// A condition that started with a colon: `:tag:`, `:attr:`, `:class:`, or the
/// name of a tag. `lower` is its text in lower case.
fn parse_command(
    cmd: &Vec<char>,
    lower: &Vec<char>,
    negated: bool,
    classes: &[FileClass],
) -> (r: Result<ConditionKind, String>)
    ensures
        outcome(r) == filter_grammar::command(
            cmd@,
            lower@,
            negated,
            filter_ast::class_views(classes@),
        ),
{
    if let Some(p) = payload_of(cmd, lower, "tag:", "tags:") {
        return match parse_tag_expr(&p) {
            Ok(expr) => Ok(ConditionKind::Tag { expr, negated }),
            Err(m) => Err(m),
        };
    }
    if let Some(p) = payload_of(cmd, lower, "attr:", "attrs:") {
        return match parse_attr_expr(&p) {
            Ok(tests) => Ok(ConditionKind::Attr { tests, negated }),
            Err(m) => Err(m),
        };
    }
    if let Some(p) = payload_of(cmd, lower, "class:", "class:") {
        if p.len() == 0 {
            return Err("empty file class name".to_owned());
        }
        return match find_class(classes, &p) {
            Some(c) => Ok(
                ConditionKind::Class {
                    name: c.name.clone(),
                    extensions: copy_texts(&c.extensions),
                    negated,
                },
            ),
            None => Err(around("unknown file class '", &p, "'")),
        };
    }
    match legacy_tag(lower) {
        Some(expr) => Ok(ConditionKind::Tag { expr, negated }),
        None => Err(around("unknown filter command ':", cmd, "'")),
    }
}

/// Whether a character occurs in a text.
fn holds_char(s: &Vec<char>, c: char) -> (r: bool)
    ensures
        r == s@.contains(c),
{
    for i in 0..s.len()
        invariant
            forall|j: int| 0 <= j < i ==> s@[j] != c,
    {
        if s[i] == c {
            return true;
        }
    }
    false
}

/// The condition of a text without white space around it.
fn parse_condition(s: &Vec<char>, classes: &[FileClass]) -> (r: Result<ConditionKind, String>)
    ensures
        outcome(r) == filter_grammar::condition(s@, filter_ast::class_views(classes@)),
{
    let negated = s.len() > 0 && s[0] == '|';
    let rest = if negated {
        proof {
            assert(s@.subrange(1, s@.len() as int) =~= s@.drop_first());
        }
        text::trimmed_start(&text::part(s, 1, s.len()))
    } else {
        proof {
            assert(s@.subrange(0, s@.len() as int) =~= s@);
        }
        text::part(s, 0, s.len())
    };
    if rest.len() == 0 {
        return Err("empty condition".to_owned());
    }
    let first: char = rest[0];
    proof {
        assert(rest@.subrange(1, rest@.len() as int) =~= rest@.drop_first());
    }
    if first == '\\' {
        if rest.len() == 1 {
            return Err("empty folder mask after '\\'".to_owned());
        }
        let pattern = text::text_of(&text::part(&rest, 1, rest.len()));
        Ok(ConditionKind::FolderMask { pattern, negated })
    } else if first == ':' {
        let cmd = text::part(&rest, 1, rest.len());
        let lower = text::lowered(&cmd);
        parse_command(&cmd, &lower, negated, classes)
    } else if holds_char(&rest, '<') || holds_char(&rest, '>') {
        if negated {
            return Err(
                "negation '|' is only supported for masks, tags, attributes and classes".to_owned(),
            );
        }
        parse_measure(&rest)
    } else {
        Ok(ConditionKind::FileMask { pattern: text::text_of(&rest), negated })
    }
}

/// Conditions in mathematical terms.
pub open spec fn condition_views(v: Seq<Condition>) -> Seq<ConditionView> {
    Seq::new(v.len(), |i: int| v[i]@)
}

/// Warnings in mathematical terms.
pub open spec fn warning_views(v: Seq<ParseWarning>) -> Seq<WarningView> {
    Seq::new(v.len(), |i: int| v[i]@)
}

/// A text with its trimmed parts takes no more bytes than the text.
proof fn lemma_trim_len(s: Seq<char>)
    ensures
        text::byte_len(text::trim_start(s)) <= text::byte_len(s),
        text::byte_len(text::trim_end(s)) <= text::byte_len(s),
    decreases s.len(),
{
    if s.len() > 0 {
        lemma_trim_len(s.drop_first());
        lemma_trim_len(s.drop_last());
        assert(s =~= s.drop_last() + seq![s.last()]);
        text::lemma_byte_len_concat(s.drop_last(), seq![s.last()]);
    }
}

/// Parses a filter string into its conditions and warnings.
#[verifier::spinoff_prover]
#[verifier::rlimit(60)]
pub fn parse_filter(input: &str, classes: &[FileClass]) -> (r: (Vec<Condition>, Vec<ParseWarning>))
    ensures
        (condition_views(r.0@), warning_views(r.1@)) == filter_grammar::parsed(
            input@,
            filter_ast::class_views(classes@),
        ),
{
    let chars = text::measured_chars(input);
    let ghost table = filter_ast::class_views(classes@);
    let mut conditions: Vec<Condition> = Vec::new();
    let mut warnings: Vec<ParseWarning> = Vec::new();
    let mut from: usize = 0;
    let mut offset: usize = 0;
    proof {
        assert(chars@.skip(0) =~= chars@);
        assert(condition_views(conditions@) =~= Seq::empty());
        assert(warning_views(warnings@) =~= Seq::empty());
        let whole = filter_grammar::pieces(chars@, 0, table);
        assert(whole.0 =~= condition_views(conditions@) + whole.0);
        assert(whole.1 =~= warning_views(warnings@) + whole.1);
    }
    loop
        invariant
            chars@ == input@,
            table == filter_ast::class_views(classes@),
            text::byte_len(chars@) <= usize::MAX,
            from <= chars@.len(),
            offset + text::byte_len(chars@.skip(from as int)) == text::byte_len(chars@),
            filter_grammar::pieces(chars@, 0, table).0 == condition_views(conditions@)
                + filter_grammar::pieces(chars@.skip(from as int), offset as nat, table).0,
            filter_grammar::pieces(chars@, 0, table).1 == warning_views(warnings@)
                + filter_grammar::pieces(chars@.skip(from as int), offset as nat, table).1,
        decreases chars@.len() - from,
    {
        let end: usize = text::find_from(&chars, from, ';');
        let ghost rest = chars@.skip(from as int);
        let ghost n = end - from;
        let piece = text::part(&chars, from, end);
        let ghost conds = condition_views(conditions@);
        let ghost warns = warning_views(warnings@);
        let ghost start = offset as nat;
        let ghost tail = if end >= chars@.len() {
            (Seq::<ConditionView>::empty(), Seq::<WarningView>::empty())
        } else {
            filter_grammar::pieces(
                chars@.skip(end + 1),
                start + text::byte_len(piece@) + 1,
                table,
            )
        };
        proof {
            assert(rest.take(n) =~= piece@);
            assert(rest =~= piece@ + rest.skip(n));
            text::lemma_byte_len_concat(piece@, rest.skip(n));
            if end < chars@.len() {
                assert(rest.skip(n + 1) =~= chars@.skip(end + 1));
                assert(rest.skip(n).drop_first() =~= chars@.skip(end + 1));
                text::lemma_find(rest, ';');
                assert(rest.skip(n)[0] == ';');
            }
        }
        let lead: usize = text::leading_spaces(&piece);
        let trimmed = text::trimmed(&piece);
        let wide: usize = text::width_of(&chars, from, end);
        if trimmed.len() > 0 {
            proof {
                let skipped = piece@.take(lead as int);
                assert(piece@ =~= skipped + piece@.skip(lead as int));
                text::lemma_byte_len_concat(skipped, piece@.skip(lead as int));
                assert(piece@.subrange(0, lead as int) =~= skipped);
                lemma_trim_len(text::trim_start(piece@));
            }
            let blank: usize = text::width_of(&piece, 0, lead);
            let inner: usize = text::width_of(&trimmed, 0, trimmed.len());
            proof {
                assert(trimmed@.subrange(0, trimmed@.len() as int) =~= trimmed@);
            }
            let span = Span::new(offset + blank, offset + blank + inner);
            proof {
                assert(span == filter_grammar::span_of(piece@, start));
            }
            match parse_condition(&trimmed, classes) {
                Ok(kind) => {
                    let cond = Condition { kind, span };
                    conditions.push(cond);
                    proof {
                        assert(condition_views(conditions@) =~= conds.push(cond@));
                        assert(conds + (seq![cond@] + tail.0) =~= conds.push(cond@) + tail.0);
                    }
                },
                Err(message) => {
                    let warning = ParseWarning { span, message };
                    warnings.push(warning);
                    proof {
                        assert(warning_views(warnings@) =~= warns.push(warning@));
                        assert(warns + (seq![warning@] + tail.1) =~= warns.push(warning@) + tail.1);
                    }
                },
            }
        }
        proof {
            assert(filter_grammar::pieces(chars@, 0, table).0 == condition_views(conditions@)
                + tail.0);
            assert(filter_grammar::pieces(chars@, 0, table).1 == warning_views(warnings@) + tail.1);
        }
        if end == chars.len() {
            proof {
                assert(condition_views(conditions@) + tail.0 =~= condition_views(conditions@));
                assert(warning_views(warnings@) + tail.1 =~= warning_views(warnings@));
            }
            return (conditions, warnings);
        }
        from = end + 1;
        offset = offset + wide + 1;
    }
}

} // verus!
