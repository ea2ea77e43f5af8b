//! What filter strings mean, word by word: which nodes each form of a condition
//! lets pass, said of the nodes' own values.
use vstd::prelude::*;

use crate::filter;
use crate::filter::FilterVerdict;
use crate::filter_ast;
use crate::filter_ast::{
    AgeField, AttrRequirement, AttrTest, ClassView, CmpOp, ConditionView, KindView, SizeMetric,
    TagExpr, TagSet,
};
use crate::filter_grammar;
use crate::filter_grammar::{CharClass, Meaning};
use crate::glob;
use crate::model::State;
use crate::node::{NodeFlags, NodeKind, Tag};
use crate::text;
use crate::{FileTime, NodeId};

verus! {

/// A text of small ASCII letters.
pub open spec fn is_word(w: Seq<char>) -> bool {
    forall|i: int| 0 <= i < w.len() ==> 'a' <= #[trigger] w[i] <= 'z'
}

/// A text of small ASCII letters and digits.
pub open spec fn is_plain(w: Seq<char>) -> bool {
    forall|i: int| 0 <= i < w.len() ==> 'a' <= #[trigger] w[i] <= 'z' || '0' <= w[i] <= '9'
}

/// White space around a text is the only thing that `trim` takes away.
pub proof fn lemma_trimmed(s: Seq<char>)
    requires
        s.len() == 0 || !text::is_space(s[0]) && !text::is_space(s.last()),
    ensures
        text::trim(s) == s,
        text::trim_start(s) == s,
{
}

/// A word is its own lower case.
pub proof fn lemma_word(w: Seq<char>)
    requires
        is_plain(w),
    ensures
        text::trim(w) == w,
        text::lower(w) == w,
{
    lemma_trimmed(w);
    assert(text::ascii_lower_text(w) =~= w);
}

proof fn lemma_exact(table: Seq<(Seq<char>, u64)>, i: int, w: Seq<char>)
    requires
        0 <= i < table.len(),
        table[i].0 == w,
        forall|j: int| 0 <= j < i ==> (#[trigger] table[j]).0 != w,
    ensures
        filter_grammar::exact(table, w) == Some(table[i].1),
    decreases table.len(),
{
    if i > 0 {
        let rest = table.drop_first();
        assert forall|j: int| 0 <= j < i - 1 implies (#[trigger] rest[j]).0 != w by {
            assert(rest[j] == table[j + 1]);
        }
        lemma_exact(rest, i - 1, w);
    }
}

proof fn lemma_absent(table: Seq<(Seq<char>, u64)>, w: Seq<char>)
    requires
        forall|j: int| 0 <= j < table.len() ==> !text::begins((#[trigger] table[j]).0, w),
    ensures
        filter_grammar::exact(table, w) is None,
        filter_grammar::started(table, w).len() == 0,
    decreases table.len(),
{
    if table.len() > 0 {
        let rest = table.drop_first();
        assert forall|j: int| 0 <= j < rest.len() implies !text::begins((#[trigger] rest[j]).0, w) by {
            assert(rest[j] == table[j + 1]);
        }
        lemma_absent(rest, w);
        let most = table.drop_last();
        assert forall|j: int| 0 <= j < most.len() implies !text::begins((#[trigger] most[j]).0, w) by {
            assert(most[j] == table[j]);
        }
        lemma_absent(most, w);
        assert(!text::begins(table[0].0, w));
        if table[0].0 == w {
            assert(w.take(w.len() as int) =~= w);
        }
        assert(!text::begins(table.last().0, w));
    }
}

/// A word of a table means what stands beside it.
pub proof fn lemma_found(table: Seq<(Seq<char>, u64)>, i: int, w: Seq<char>)
    requires
        0 <= i < table.len(),
        table[i].0 == w,
        forall|j: int| 0 <= j < i ==> (#[trigger] table[j]).0 != w,
        w.len() > 0,
        is_word(w),
    ensures
        filter_grammar::meaning(w, table) == Meaning::Found(table[i].1),
{
    lemma_word(w);
    lemma_exact(table, i, w);
}

/// A word with which no name of a table starts means nothing.
pub proof fn lemma_unknown(table: Seq<(Seq<char>, u64)>, w: Seq<char>)
    requires
        forall|j: int| 0 <= j < table.len() ==> !text::begins((#[trigger] table[j]).0, w),
        is_word(w),
    ensures
        filter_grammar::meaning(w, table) == Meaning::Unknown,
{
    lemma_word(w);
    lemma_absent(table, w);
}

proof fn lemma_run(s: Seq<char>, i: nat, j: nat, class: CharClass)
    requires
        i <= j <= s.len(),
        forall|k: int| i <= k < j ==> class.has(#[trigger] s[k]),
        j < s.len() ==> !class.has(s[j as int]),
    ensures
        filter_grammar::run_end(s, i, class) == j,
    decreases j - i,
{
    if i < j {
        assert(class.has(s[i as int]));
        lemma_run(s, i + 1, j, class);
    }
}

/// A number in decimal is made of digits, and they stand for it.
pub proof fn lemma_decimal(n: nat)
    ensures
        text::dec(n).len() > 0,
        forall|i: int| 0 <= i < text::dec(n).len() ==> '0' <= #[trigger] text::dec(n)[i] <= '9',
        filter_grammar::number(text::dec(n)) == n,
    decreases n,
{
    let s = text::dec(n);
    if n < 10 {
        assert(s.drop_last() =~= Seq::<char>::empty());
        assert(filter_grammar::number(s.drop_last()) == 0);
        assert(s.last() == text::digit(n as int));
    } else {
        lemma_decimal(n / 10);
        assert(s.drop_last() =~= text::dec(n / 10));
        assert(s.last() == text::digit((n % 10) as int));
    }
}

proof fn lemma_no_separator(s: Seq<char>, c: char)
    requires
        !s.contains(c),
    ensures
        text::find(s, c) == s.len(),
{
    text::lemma_find(s, c);
}

/// What a filter string of one condition and no warning tests.
#[verifier::opaque]
pub open spec fn single(input: Seq<char>, classes: Seq<ClassView>) -> Option<KindView> {
    let (conds, warnings) = filter_grammar::parsed(input, classes);
    if conds.len() == 1 && warnings.len() == 0 {
        Some(conds[0].kind)
    } else {
        None
    }
}

/// A filter string of one piece without white space around it has the one
/// condition of that piece.
pub proof fn lemma_single(s: Seq<char>, classes: Seq<ClassView>, kind: KindView)
    requires
        s.len() > 0,
        !s.contains(';'),
        !text::is_space(s[0]),
        !text::is_space(s.last()),
        filter_grammar::condition(s, classes) == Ok::<KindView, Seq<char>>(kind),
    ensures
        single(s, classes) == Some(kind),
{
    reveal(single);
    lemma_no_separator(s, ';');
    lemma_trimmed(s);
    assert(s.take(s.len() as int) =~= s);
}

/// What a filter of one condition lets pass.
pub proof fn lemma_one_condition(
    input: Seq<char>,
    classes: Seq<ClassView>,
    kind: KindView,
    s: State,
    id: NodeId,
    now: FileTime,
)
    requires
        single(input, classes) == Some(kind),
    ensures
        filter_grammar::parsed(input, classes).0.len() == 1,
        filter_grammar::parsed(input, classes).1.len() == 0,
        filter::passes(filter_grammar::parsed(input, classes).0, s, id, now) == (if filter::group(
            kind,
        ) == filter::Group::Exclusion {
            !filter::holds(s, id, kind, now)
        } else {
            filter::holds(s, id, kind, now)
        }),
{
    reveal(single);
    lemma_passes_one(filter_grammar::parsed(input, classes).0, s, id, now);
}

/// A filter of one exclusion passes what it does not hold of, any other what it
/// holds of.
proof fn lemma_passes_one(conds: Seq<ConditionView>, s: State, id: NodeId, now: FileTime)
    requires
        conds.len() == 1,
    ensures
        filter::passes(conds, s, id, now) == (if filter::group(conds[0].kind)
            == filter::Group::Exclusion {
            !filter::holds(s, id, conds[0].kind, now)
        } else {
            filter::holds(s, id, conds[0].kind, now)
        }),
{
    let k = conds[0].kind;
    if filter::group(k) == filter::Group::Inclusion && filter::holds(s, id, k, now) {
        assert(filter::group(conds[0].kind) == filter::Group::Inclusion && filter::holds(
            s,
            id,
            conds[0].kind,
            now,
        ));
    }
    if filter::group(k) == filter::Group::Inclusion {
        assert(filter::includes(conds));
    }
}

/// A size or age condition without spaces is read part by part.
proof fn lemma_measure(
    word: Seq<char>,
    op: char,
    n: u64,
    unit: Seq<char>,
    classes: Seq<ClassView>,
    kind: KindView,
)
    requires
        is_word(word),
        is_word(unit),
        op == '<' || op == '>',
        filter_grammar::resolved(
            word,
            if op == '<' {
                CmpOp::Lt
            } else {
                CmpOp::Gt
            },
            n,
            unit,
        ) == Ok::<KindView, Seq<char>>(kind),
    ensures
        single(word + seq![op] + text::dec(n as nat) + unit, classes) == Some(kind),
{
    let digits = text::dec(n as nat);
    let s = word + seq![op] + digits + unit;
    let o = word.len();
    let n1 = o + 1 + digits.len();
    lemma_decimal(n as nat);
    assert(s[o as int] == op);
    assert(s.contains(op));
    assert forall|k: int| 0 <= k < s.len() implies {
        &&& k < o ==> s[k] == word[k]
        &&& o < k < n1 ==> s[k] == digits[k - o - 1]
        &&& n1 <= k ==> s[k] == unit[k - n1]
    } by {}
    assert forall|k: int| 0 <= k < s.len() implies #[trigger] s[k] != ';' && s[k] != '|' && s[k]
        != '\\' && s[k] != ':' && !text::is_space(s[k]) && !CharClass::Space.has(s[k]) by {}
    lemma_run(s, 0, 0, CharClass::Space);
    lemma_run(s, 0, o, CharClass::Letter);
    lemma_run(s, o, o, CharClass::Space);
    lemma_run(s, o + 1, o + 1, CharClass::Space);
    lemma_run(s, o + 1, n1, CharClass::Digit);
    lemma_run(s, n1, n1, CharClass::Space);
    lemma_run(s, n1, s.len(), CharClass::Letter);
    lemma_run(s, s.len(), s.len(), CharClass::Space);
    assert(s.subrange(0, o as int) =~= word);
    assert(s.subrange(o as int + 1, n1 as int) =~= digits);
    assert(s.subrange(n1 as int, s.len() as int) =~= unit);
    lemma_single(s, classes, kind);
}

/// The keywords of sizes and ages, letter by letter.
proof fn spell_keywords()
    ensures
        "disksize"@ == seq!['d', 'i', 's', 'k', 's', 'i', 'z', 'e'],
        "clustersize"@ == seq!['c', 'l', 'u', 's', 't', 'e', 'r', 's', 'i', 'z', 'e'],
        "filesize"@ == seq!['f', 'i', 'l', 'e', 's', 'i', 'z', 'e'],
        "logicalsize"@ == seq!['l', 'o', 'g', 'i', 'c', 'a', 'l', 's', 'i', 'z', 'e'],
        "size"@ == seq!['s', 'i', 'z', 'e'],
        "disk"@ == seq!['d', 'i', 's', 'k'],
        "dsk"@ == seq!['d', 's', 'k'],
        "dsksz"@ == seq!['d', 's', 'k', 's', 'z'],
        "creation"@ == seq!['c', 'r', 'e', 'a', 't', 'i', 'o', 'n'],
        "created"@ == seq!['c', 'r', 'e', 'a', 't', 'e', 'd'],
        "modify"@ == seq!['m', 'o', 'd', 'i', 'f', 'y'],
        "modified"@ == seq!['m', 'o', 'd', 'i', 'f', 'i', 'e', 'd'],
        "access"@ == seq!['a', 'c', 'c', 'e', 's', 's'],
        "accessed"@ == seq!['a', 'c', 'c', 'e', 's', 's', 'e', 'd'],
{
    reveal_strlit("disksize");
    reveal_strlit("clustersize");
    reveal_strlit("filesize");
    reveal_strlit("logicalsize");
    reveal_strlit("size");
    reveal_strlit("disk");
    reveal_strlit("dsk");
    reveal_strlit("dsksz");
    reveal_strlit("creation");
    reveal_strlit("created");
    reveal_strlit("modify");
    reveal_strlit("modified");
    reveal_strlit("access");
    reveal_strlit("accessed");
    assert("disksize"@ =~= seq!['d', 'i', 's', 'k', 's', 'i', 'z', 'e']);
    assert("clustersize"@ =~= seq!['c', 'l', 'u', 's', 't', 'e', 'r', 's', 'i', 'z', 'e']);
    assert("filesize"@ =~= seq!['f', 'i', 'l', 'e', 's', 'i', 'z', 'e']);
    assert("logicalsize"@ =~= seq!['l', 'o', 'g', 'i', 'c', 'a', 'l', 's', 'i', 'z', 'e']);
    assert("size"@ =~= seq!['s', 'i', 'z', 'e']);
    assert("disk"@ =~= seq!['d', 'i', 's', 'k']);
    assert("dsk"@ =~= seq!['d', 's', 'k']);
    assert("dsksz"@ =~= seq!['d', 's', 'k', 's', 'z']);
    assert("creation"@ =~= seq!['c', 'r', 'e', 'a', 't', 'i', 'o', 'n']);
    assert("created"@ =~= seq!['c', 'r', 'e', 'a', 't', 'e', 'd']);
    assert("modify"@ =~= seq!['m', 'o', 'd', 'i', 'f', 'y']);
    assert("modified"@ =~= seq!['m', 'o', 'd', 'i', 'f', 'i', 'e', 'd']);
    assert("access"@ =~= seq!['a', 'c', 'c', 'e', 's', 's']);
    assert("accessed"@ =~= seq!['a', 'c', 'c', 'e', 's', 's', 'e', 'd']);
}

/// The units of sizes and ages, letter by letter.
proof fn spell_units()
    ensures
        "b"@ == seq!['b'],
        "kb"@ == seq!['k', 'b'],
        "mb"@ == seq!['m', 'b'],
        "gb"@ == seq!['g', 'b'],
        "tb"@ == seq!['t', 'b'],
        "seconds"@ == seq!['s', 'e', 'c', 'o', 'n', 'd', 's'],
        "minutes"@ == seq!['m', 'i', 'n', 'u', 't', 'e', 's'],
        "hours"@ == seq!['h', 'o', 'u', 'r', 's'],
        "days"@ == seq!['d', 'a', 'y', 's'],
        "weeks"@ == seq!['w', 'e', 'e', 'k', 's'],
        "months"@ == seq!['m', 'o', 'n', 't', 'h', 's'],
        "years"@ == seq!['y', 'e', 'a', 'r', 's'],
{
    reveal_strlit("b");
    reveal_strlit("kb");
    reveal_strlit("mb");
    reveal_strlit("gb");
    reveal_strlit("tb");
    reveal_strlit("seconds");
    reveal_strlit("minutes");
    reveal_strlit("hours");
    reveal_strlit("days");
    reveal_strlit("weeks");
    reveal_strlit("months");
    reveal_strlit("years");
    assert("b"@ =~= seq!['b']);
    assert("kb"@ =~= seq!['k', 'b']);
    assert("mb"@ =~= seq!['m', 'b']);
    assert("gb"@ =~= seq!['g', 'b']);
    assert("tb"@ =~= seq!['t', 'b']);
    assert("seconds"@ =~= seq!['s', 'e', 'c', 'o', 'n', 'd', 's']);
    assert("minutes"@ =~= seq!['m', 'i', 'n', 'u', 't', 'e', 's']);
    assert("hours"@ =~= seq!['h', 'o', 'u', 'r', 's']);
    assert("days"@ =~= seq!['d', 'a', 'y', 's']);
    assert("weeks"@ =~= seq!['w', 'e', 'e', 'k', 's']);
    assert("months"@ =~= seq!['m', 'o', 'n', 't', 'h', 's']);
    assert("years"@ =~= seq!['y', 'e', 'a', 'r', 's']);
}

/// What the size keywords mean.
proof fn lemma_size_keyword(w: Seq<char>)
    requires
        w == "disksize"@
            || w == "clustersize"@
            || w == "filesize"@
            || w == "logicalsize"@
            || w == "size"@
            || w == "disk"@
            || w == "dsk"@
            || w == "dsksz"@,
    ensures
        is_word(w),
        w.len() > 0,
        filter_grammar::meaning(w, filter_grammar::age_keywords()) == Meaning::Unknown,
        w == "disksize"@ || w == "clustersize"@ || w == "size"@ || w == "disk"@ || w == "dsk"@ || w == "dsksz"@ ==> filter_grammar::meaning(
            w,
            filter_grammar::size_keywords(),
        ) == Meaning::Found(0),
        w == "filesize"@ || w == "logicalsize"@ ==> filter_grammar::meaning(
            w,
            filter_grammar::size_keywords(),
        ) == Meaning::Found(1),
{
    spell_keywords();
    let table = filter_grammar::size_keywords();
    if w == "disksize"@ {
        lemma_found(table, 0, w);
    }
    if w == "clustersize"@ {
        lemma_found(table, 1, w);
    }
    if w == "filesize"@ {
        lemma_found(table, 2, w);
    }
    if w == "logicalsize"@ {
        lemma_found(table, 3, w);
    }
    if w == "size"@ {
        lemma_found(table, 4, w);
    }
    if w == "disk"@ {
        lemma_found(table, 5, w);
    }
    if w == "dsk"@ {
        lemma_found(table, 6, w);
    }
    if w == "dsksz"@ {
        lemma_found(table, 7, w);
    }
    lemma_unknown(filter_grammar::age_keywords(), w);
}

/// What the age keywords mean.
proof fn lemma_age_keyword(w: Seq<char>)
    requires
        w == "creation"@
            || w == "created"@
            || w == "modify"@
            || w == "modified"@
            || w == "access"@
            || w == "accessed"@,
    ensures
        is_word(w),
        w.len() > 0,
        filter_grammar::meaning(w, filter_grammar::size_keywords()) == Meaning::Unknown,
        w == "creation"@ || w == "created"@ ==> filter_grammar::meaning(
            w,
            filter_grammar::age_keywords(),
        ) == Meaning::Found(0),
        w == "modify"@ || w == "modified"@ ==> filter_grammar::meaning(
            w,
            filter_grammar::age_keywords(),
        ) == Meaning::Found(1),
        w == "access"@ || w == "accessed"@ ==> filter_grammar::meaning(
            w,
            filter_grammar::age_keywords(),
        ) == Meaning::Found(2),
{
    spell_keywords();
    let table = filter_grammar::age_keywords();
    if w == "creation"@ {
        lemma_found(table, 0, w);
    }
    if w == "created"@ {
        lemma_found(table, 1, w);
    }
    if w == "modify"@ {
        lemma_found(table, 2, w);
    }
    if w == "modified"@ {
        lemma_found(table, 3, w);
    }
    if w == "access"@ {
        lemma_found(table, 4, w);
    }
    if w == "accessed"@ {
        lemma_found(table, 5, w);
    }
    lemma_unknown(filter_grammar::size_keywords(), w);
}

/// What the size units mean.
proof fn lemma_size_unit(w: Seq<char>)
    requires
        w == "b"@
            || w == "kb"@
            || w == "mb"@
            || w == "gb"@
            || w == "tb"@,
    ensures
        is_word(w),
        w.len() > 0,
        filter_grammar::meaning(w, filter_grammar::age_units()) == Meaning::Unknown,
        w == "b"@ ==> filter_grammar::meaning(
            w,
            filter_grammar::size_units(),
        ) == Meaning::Found(1),
        w == "kb"@ ==> filter_grammar::meaning(
            w,
            filter_grammar::size_units(),
        ) == Meaning::Found(1024),
        w == "mb"@ ==> filter_grammar::meaning(
            w,
            filter_grammar::size_units(),
        ) == Meaning::Found(1_048_576),
        w == "gb"@ ==> filter_grammar::meaning(
            w,
            filter_grammar::size_units(),
        ) == Meaning::Found(1_073_741_824),
        w == "tb"@ ==> filter_grammar::meaning(
            w,
            filter_grammar::size_units(),
        ) == Meaning::Found(1_099_511_627_776),
{
    spell_units();
    let table = filter_grammar::size_units();
    if w == "b"@ {
        lemma_found(table, 0, w);
    }
    if w == "kb"@ {
        lemma_found(table, 1, w);
    }
    if w == "mb"@ {
        lemma_found(table, 2, w);
    }
    if w == "gb"@ {
        lemma_found(table, 3, w);
    }
    if w == "tb"@ {
        lemma_found(table, 4, w);
    }
    lemma_unknown(filter_grammar::age_units(), w);
}

/// What the age units mean.
proof fn lemma_age_unit(w: Seq<char>)
    requires
        w == "seconds"@
            || w == "minutes"@
            || w == "hours"@
            || w == "days"@
            || w == "weeks"@
            || w == "months"@
            || w == "years"@,
    ensures
        is_word(w),
        w.len() > 0,
        filter_grammar::meaning(w, filter_grammar::size_units()) == Meaning::Unknown,
        w == "seconds"@ ==> filter_grammar::meaning(
            w,
            filter_grammar::age_units(),
        ) == Meaning::Found(1),
        w == "minutes"@ ==> filter_grammar::meaning(
            w,
            filter_grammar::age_units(),
        ) == Meaning::Found(60),
        w == "hours"@ ==> filter_grammar::meaning(
            w,
            filter_grammar::age_units(),
        ) == Meaning::Found(3600),
        w == "days"@ ==> filter_grammar::meaning(
            w,
            filter_grammar::age_units(),
        ) == Meaning::Found(86_400),
        w == "weeks"@ ==> filter_grammar::meaning(
            w,
            filter_grammar::age_units(),
        ) == Meaning::Found(604_800),
        w == "months"@ ==> filter_grammar::meaning(
            w,
            filter_grammar::age_units(),
        ) == Meaning::Found(2_592_000),
        w == "years"@ ==> filter_grammar::meaning(
            w,
            filter_grammar::age_units(),
        ) == Meaning::Found(31_536_000),
{
    spell_units();
    let table = filter_grammar::age_units();
    if w == "seconds"@ {
        lemma_found(table, 0, w);
    }
    if w == "minutes"@ {
        lemma_found(table, 1, w);
    }
    if w == "hours"@ {
        lemma_found(table, 2, w);
    }
    if w == "days"@ {
        lemma_found(table, 3, w);
    }
    if w == "weeks"@ {
        lemma_found(table, 4, w);
    }
    if w == "months"@ {
        lemma_found(table, 5, w);
    }
    if w == "years"@ {
        lemma_found(table, 6, w);
    }
    lemma_unknown(filter_grammar::size_units(), w);
}

proof fn lemma_size_factor(unit: Seq<char>, factor: int)
    requires
        ((unit == Seq::<char>::empty() || unit == "b"@) && factor == 1) || (unit == "kb"@ && factor
            == 1024) || (unit == "mb"@ && factor == 1024 * 1024) || (unit == "gb"@ && factor == 1024
            * 1024 * 1024) || (unit == "tb"@ && factor == 1024 * 1024 * 1024 * 1024),
    ensures
        is_word(unit),
        unit.len() > 0 ==> filter_grammar::meaning(unit, filter_grammar::size_units())
            == Meaning::Found(factor as u64) && 0 <= factor <= u64::MAX,
        unit.len() > 0 ==> filter_grammar::meaning(unit, filter_grammar::age_units())
            == Meaning::Unknown,
        unit.len() == 0 ==> factor == 1,
{
    spell_units();
    if unit != Seq::<char>::empty() {
        lemma_size_unit(unit);
    }
}

proof fn lemma_age_factor(unit: Seq<char>, factor: int)
    requires
        (unit == "seconds"@ && factor == 1) || (unit == "minutes"@ && factor == 60) || (unit
            == "hours"@ && factor == 60 * 60) || (unit == "days"@ && factor == 24 * 60 * 60) || (
        unit == "weeks"@ && factor == 7 * 24 * 60 * 60) || (unit == "months"@ && factor == 30 * 24
            * 60 * 60) || (unit == "years"@ && factor == 365 * 24 * 60 * 60),
    ensures
        is_word(unit),
        unit.len() > 0,
        filter_grammar::meaning(unit, filter_grammar::age_units()) == Meaning::Found(factor as u64),
        0 <= factor <= u64::MAX,
        filter_grammar::meaning(unit, filter_grammar::size_units()) == Meaning::Unknown,
{
    lemma_age_unit(unit);
    spell_units();
}

proof fn lemma_size_metric(word: Seq<char>)
    requires
        word == Seq::<char>::empty() || word == "disksize"@ || word == "clustersize"@ || word
            == "size"@ || word == "disk"@ || word == "dsk"@ || word == "dsksz"@ || word
            == "filesize"@ || word == "logicalsize"@,
    ensures
        is_word(word),
        word.len() > 0 ==> filter_grammar::meaning(word, filter_grammar::size_keywords())
            == Meaning::Found(
            if word == "filesize"@ || word == "logicalsize"@ {
                1
            } else {
                0
            },
        ),
        word.len() > 0 ==> filter_grammar::meaning(word, filter_grammar::age_keywords())
            == Meaning::Unknown,
        word.len() == 0 ==> word != "filesize"@ && word != "logicalsize"@,
{
    spell_keywords();
    if word != Seq::<char>::empty() {
        lemma_size_keyword(word);
    }
}

proof fn lemma_age_field(word: Seq<char>)
    requires
        word == Seq::<char>::empty() || word == "creation"@ || word == "created"@ || word
            == "modify"@ || word == "modified"@ || word == "access"@ || word == "accessed"@,
    ensures
        is_word(word),
        word.len() > 0 ==> filter_grammar::meaning(word, filter_grammar::age_keywords())
            == Meaning::Found(
            if word == "creation"@ || word == "created"@ {
                0
            } else if word == "access"@ || word == "accessed"@ {
                2
            } else {
                1
            },
        ),
        word.len() > 0 ==> filter_grammar::meaning(word, filter_grammar::size_keywords())
            == Meaning::Unknown,
        word.len() == 0 ==> word != "creation"@ && word != "created"@ && word != "access"@ && word
            != "accessed"@,
{
    spell_keywords();
    if word != Seq::<char>::empty() {
        lemma_age_keyword(word);
    }
}

/// A size condition `>n` or `<n` compares the allocated size of the node itself,
/// strictly, and so it does with each keyword for it; with `filesize` or
/// `logicalsize` it compares the logical size. The unit multiplies the number by a
/// power of 1024.
pub proof fn law_size_conditions(
    word: Seq<char>,
    op: char,
    n: u64,
    unit: Seq<char>,
    factor: int,
    classes: Seq<ClassView>,
    s: State,
    id: NodeId,
    now: FileTime,
)
    requires
        word == Seq::<char>::empty() || word == "disksize"@ || word == "clustersize"@ || word
            == "size"@ || word == "disk"@ || word == "dsk"@ || word == "dsksz"@ || word
            == "filesize"@ || word == "logicalsize"@,
        op == '<' || op == '>',
        ((unit == Seq::<char>::empty() || unit == "b"@) && factor == 1) || (unit == "kb"@ && factor
            == 1024) || (unit == "mb"@ && factor == 1024 * 1024) || (unit == "gb"@ && factor == 1024
            * 1024 * 1024) || (unit == "tb"@ && factor == 1024 * 1024 * 1024 * 1024),
        n * factor <= u64::MAX,
    ensures
        ({
            let (conds, warnings) = filter_grammar::parsed(
                word + seq![op] + text::dec(n as nat) + unit,
                classes,
            );
            let size = if word == "filesize"@ || word == "logicalsize"@ {
                s.nodes[id as int].logical_size
            } else {
                s.nodes[id as int].allocated_size
            };
            &&& conds.len() == 1
            &&& warnings.len() == 0
            &&& op == '>' ==> (filter::passes(conds, s, id, now) <==> size > n * factor)
            &&& op == '<' ==> (filter::passes(conds, s, id, now) <==> size < n * factor)
        }),
{
    lemma_size_metric(word);
    lemma_size_factor(unit, factor);
    let kind = KindView::Size {
        metric: if word == "filesize"@ || word == "logicalsize"@ {
            SizeMetric::Logical
        } else {
            SizeMetric::Disk
        },
        op: if op == '<' {
            CmpOp::Lt
        } else {
            CmpOp::Gt
        },
        bytes: (n * factor) as u64,
    };
    lemma_measure(word, op, n, unit, classes, kind);
    lemma_one_condition(
        word + seq![op] + text::dec(n as nat) + unit,
        classes,
        kind,
        s,
        id,
        now,
    );
}

/// An age condition compares whole seconds between a timestamp and now, strictly:
/// without a keyword since the modification. A unit stands for its seconds, a
/// month for 30 days and a year for 365.
pub proof fn law_age_conditions(
    word: Seq<char>,
    op: char,
    n: u64,
    unit: Seq<char>,
    factor: int,
    classes: Seq<ClassView>,
    s: State,
    id: NodeId,
    now: FileTime,
)
    requires
        word == Seq::<char>::empty() || word == "creation"@ || word == "created"@ || word
            == "modify"@ || word == "modified"@ || word == "access"@ || word == "accessed"@,
        op == '<' || op == '>',
        (unit == "seconds"@ && factor == 1) || (unit == "minutes"@ && factor == 60) || (unit
            == "hours"@ && factor == 60 * 60) || (unit == "days"@ && factor == 24 * 60 * 60) || (
        unit == "weeks"@ && factor == 7 * 24 * 60 * 60) || (unit == "months"@ && factor == 30 * 24
            * 60 * 60) || (unit == "years"@ && factor == 365 * 24 * 60 * 60),
        n * factor <= u64::MAX,
        now - s.nodes[id as int].created <= i64::MAX,
        now - s.nodes[id as int].modified <= i64::MAX,
        now - s.nodes[id as int].accessed <= i64::MAX,
    ensures
        ({
            let (conds, warnings) = filter_grammar::parsed(
                word + seq![op] + text::dec(n as nat) + unit,
                classes,
            );
            let d = s.nodes[id as int];
            let since = if word == "creation"@ || word == "created"@ {
                d.created
            } else if word == "access"@ || word == "accessed"@ {
                d.accessed
            } else {
                d.modified
            };
            let age = if now <= since {
                0
            } else {
                (now - since) / 10_000_000
            };
            &&& conds.len() == 1
            &&& warnings.len() == 0
            &&& op == '>' ==> (filter::passes(conds, s, id, now) <==> age > n * factor)
            &&& op == '<' ==> (filter::passes(conds, s, id, now) <==> age < n * factor)
        }),
{
    lemma_age_field(word);
    lemma_age_factor(unit, factor);
    let kind = KindView::Age {
        field: if word == "creation"@ || word == "created"@ {
            AgeField::Creation
        } else if word == "access"@ || word == "accessed"@ {
            AgeField::Access
        } else {
            AgeField::Modify
        },
        op: if op == '<' {
            CmpOp::Lt
        } else {
            CmpOp::Gt
        },
        seconds: (n * factor) as u64,
    };
    lemma_measure(word, op, n, unit, classes, kind);
    lemma_one_condition(
        word + seq![op] + text::dec(n as nat) + unit,
        classes,
        kind,
        s,
        id,
        now,
    );
}

/// A text without capital letters is its own lower case.
proof fn lemma_lower(s: Seq<char>)
    requires
        forall|i: int| 0 <= i < s.len() ==> #[trigger] s[i] < '\u{80}' && !('A' <= s[i] <= 'Z'),
    ensures
        text::lower(s) == s,
{
    assert(text::ascii_lower_text(s) =~= s);
}

proof fn lemma_unsigned(w: Seq<char>, rest: Seq<char>)
    requires
        is_plain(w),
        rest.len() > 0 ==> filter_grammar::is_sign(rest[0]),
    ensures
        filter_grammar::unsigned_len(w + rest) == w.len(),
    decreases w.len(),
{
    if w.len() == 0 {
        assert(w + rest =~= rest);
    } else {
        assert((w + rest)[0] == w[0]);
        assert((w + rest).drop_first() =~= w.drop_first() + rest);
        assert(is_plain(w.drop_first())) by {
            assert forall|i: int| 0 <= i < w.drop_first().len() implies 'a' <= #[trigger] w.drop_first()[i]
                <= 'z' || '0' <= w.drop_first()[i] <= '9' by {
                assert(w.drop_first()[i] == w[i + 1]);
            }
        }
        lemma_unsigned(w.drop_first(), rest);
    }
}

proof fn lemma_segment(w: Seq<char>, rest: Seq<char>, minus: bool)
    requires
        is_plain(w),
        w.len() > 0,
        rest.len() > 0 ==> filter_grammar::is_sign(rest[0]),
    ensures
        filter_grammar::segments(w + rest, minus) == seq![(minus, w)] + filter_grammar::segments(
            rest,
            minus,
        ),
{
    lemma_unsigned(w, rest);
    let s = w + rest;
    assert(s[0] == w[0]);
    assert(s.take(w.len() as int) =~= w);
    assert(s.skip(w.len() as int) =~= rest);
}

/// The text of a sign.
pub open spec fn minus_text(minus: bool) -> Seq<char> {
    if minus {
        seq!['-']
    } else {
        Seq::empty()
    }
}

/// A list of one word, with a minus before it or not.
proof fn lemma_one_item(w: Seq<char>, minus: bool)
    requires
        is_plain(w),
        w.len() > 0,
    ensures
        filter_grammar::signed(minus_text(minus) + w) == (seq![(minus, w)], true),
{
    let s = minus_text(minus) + w;
    assert forall|i: int| 0 <= i < s.len() implies #[trigger] s[i] != ',' by {
        if i >= minus_text(minus).len() {
            assert(s[i] == w[i - minus_text(minus).len()]);
        }
    }
    lemma_no_separator(s, ',');
    assert(s.take(s.len() as int) =~= s);
    lemma_segment(w, Seq::empty(), minus);
    assert(w + Seq::<char>::empty() =~= w);
    assert(seq![(minus, w)] + Seq::<(bool, Seq<char>)>::empty() =~= seq![(minus, w)]);
    if minus {
        assert(s.drop_first() =~= w);
    } else {
        assert(s =~= w);
    }
}

/// A list of two words with a comma or a sign between them.
proof fn lemma_two_items(a: Seq<char>, b: Seq<char>, sep: char)
    requires
        is_plain(a),
        is_plain(b),
        a.len() > 0,
        b.len() > 0,
        sep == ',' || sep == '+' || sep == '-',
    ensures
        filter_grammar::signed(a + seq![sep] + b) == (seq![(false, a), (sep == '-', b)], true),
{
    let s = a + seq![sep] + b;
    assert(s[a.len() as int] == sep);
    assert forall|i: int| 0 <= i < s.len() && i != a.len() implies #[trigger] s[i] != ',' by {
        if i < a.len() {
            assert(s[i] == a[i]);
        } else {
            assert(s[i] == b[i - a.len() - 1]);
        }
    }
    text::lemma_find(s, ',');
    if sep == ',' {
        assert(text::find(s, ',') == a.len());
        assert(s.take(a.len() as int) =~= minus_text(false) + a);
        assert(s.skip(a.len() as int + 1) =~= minus_text(false) + b);
        assert(minus_text(false) + a =~= a);
        lemma_segment(a, Seq::empty(), false);
        assert(a + Seq::<char>::empty() =~= a);
        assert(filter_grammar::segments(a, false) =~= seq![(false, a)]);
        lemma_one_item(b, false);
        assert(seq![(false, a)] + seq![(false, b)] =~= seq![(false, a), (false, b)]);
    } else {
        lemma_no_separator(s, ',');
        assert(s.take(s.len() as int) =~= s);
        let rest = seq![sep] + b;
        assert(s =~= a + rest);
        lemma_segment(a, rest, false);
        assert(rest.drop_first() =~= b);
        lemma_segment(b, Seq::empty(), sep == '-');
        assert(b + Seq::<char>::empty() =~= b);
        assert(filter_grammar::segments(rest, false) =~= seq![(sep == '-', b)]);
        assert(seq![(false, a)] + seq![(sep == '-', b)] =~= seq![(false, a), (sep == '-', b)]);
    }
}

/// The text of a negation.
pub open spec fn not_text(negated: bool) -> Seq<char> {
    if negated {
        seq!['|']
    } else {
        Seq::empty()
    }
}

/// A condition that starts with a colon is that command.
proof fn lemma_command(cmd: Seq<char>, negated: bool, classes: Seq<ClassView>, kind: KindView)
    requires
        cmd.len() > 0,
        forall|i: int|
            0 <= i < cmd.len() ==> #[trigger] cmd[i] < '\u{80}' && !('A' <= cmd[i] <= 'Z') && cmd[i]
                != ';' && !text::is_space(cmd[i]),
        filter_grammar::command(cmd, cmd, negated, classes) == Ok::<KindView, Seq<char>>(kind),
    ensures
        single(not_text(negated) + seq![':'] + cmd, classes) == Some(kind),
{
    let s = not_text(negated) + seq![':'] + cmd;
    let h = not_text(negated).len() as int;
    assert forall|i: int| 0 <= i < s.len() implies #[trigger] s[i] != ';' && !text::is_space(s[i]) by {
        if i > h {
            assert(s[i] == cmd[i - h - 1]);
        }
    }
    lemma_lower(cmd);
    let rest = seq![':'] + cmd;
    if negated {
        assert(s.drop_first() =~= rest);
        lemma_trimmed(rest);
    } else {
        assert(s =~= rest);
    }
    assert(rest[0] == ':');
    assert(rest.drop_first() =~= cmd);
    lemma_single(s, classes, kind);
}

/// The names of attributes, letter by letter.
proof fn spell_attributes()
    ensures
        "archive"@ == seq!['a', 'r', 'c', 'h', 'i', 'v', 'e'],
        "a"@ == seq!['a'],
        "system"@ == seq!['s', 'y', 's', 't', 'e', 'm'],
        "readonly"@ == seq!['r', 'e', 'a', 'd', 'o', 'n', 'l', 'y'],
        "ro"@ == seq!['r', 'o'],
        "hidden"@ == seq!['h', 'i', 'd', 'd', 'e', 'n'],
        "compressed"@ == seq!['c', 'o', 'm', 'p', 'r', 'e', 's', 's', 'e', 'd'],
        "encrypted"@ == seq!['e', 'n', 'c', 'r', 'y', 'p', 't', 'e', 'd'],
        "offline"@ == seq!['o', 'f', 'f', 'l', 'i', 'n', 'e'],
        "temporary"@ == seq!['t', 'e', 'm', 'p', 'o', 'r', 'a', 'r', 'y'],
        "notindexed"@ == seq!['n', 'o', 't', 'i', 'n', 'd', 'e', 'x', 'e', 'd'],
        "sparse"@ == seq!['s', 'p', 'a', 'r', 's', 'e'],
        "sp"@ == seq!['s', 'p'],
        "ads"@ == seq!['a', 'd', 's'],
{
    reveal_strlit("archive");
    reveal_strlit("a");
    reveal_strlit("system");
    reveal_strlit("readonly");
    reveal_strlit("ro");
    reveal_strlit("hidden");
    reveal_strlit("compressed");
    reveal_strlit("encrypted");
    reveal_strlit("offline");
    reveal_strlit("temporary");
    reveal_strlit("notindexed");
    reveal_strlit("sparse");
    reveal_strlit("sp");
    reveal_strlit("ads");
    assert("archive"@ =~= seq!['a', 'r', 'c', 'h', 'i', 'v', 'e']);
    assert("a"@ =~= seq!['a']);
    assert("system"@ =~= seq!['s', 'y', 's', 't', 'e', 'm']);
    assert("readonly"@ =~= seq!['r', 'e', 'a', 'd', 'o', 'n', 'l', 'y']);
    assert("ro"@ =~= seq!['r', 'o']);
    assert("hidden"@ =~= seq!['h', 'i', 'd', 'd', 'e', 'n']);
    assert("compressed"@ =~= seq!['c', 'o', 'm', 'p', 'r', 'e', 's', 's', 'e', 'd']);
    assert("encrypted"@ =~= seq!['e', 'n', 'c', 'r', 'y', 'p', 't', 'e', 'd']);
    assert("offline"@ =~= seq!['o', 'f', 'f', 'l', 'i', 'n', 'e']);
    assert("temporary"@ =~= seq!['t', 'e', 'm', 'p', 'o', 'r', 'a', 'r', 'y']);
    assert("notindexed"@ =~= seq!['n', 'o', 't', 'i', 'n', 'd', 'e', 'x', 'e', 'd']);
    assert("sparse"@ =~= seq!['s', 'p', 'a', 'r', 's', 'e']);
    assert("sp"@ =~= seq!['s', 'p']);
    assert("ads"@ =~= seq!['a', 'd', 's']);
}

/// What each name of an attribute means.
proof fn lemma_attribute(word: Seq<char>, bit: u32)
    requires
        (word == "archive"@ && bit == NodeFlags::ARCHIVE)
            || (word == "a"@ && bit == NodeFlags::ARCHIVE)
            || (word == "system"@ && bit == NodeFlags::SYSTEM)
            || (word == "readonly"@ && bit == NodeFlags::READONLY)
            || (word == "ro"@ && bit == NodeFlags::READONLY)
            || (word == "hidden"@ && bit == NodeFlags::HIDDEN)
            || (word == "compressed"@ && bit == NodeFlags::COMPRESSED)
            || (word == "encrypted"@ && bit == NodeFlags::ENCRYPTED)
            || (word == "offline"@ && bit == NodeFlags::OFFLINE)
            || (word == "temporary"@ && bit == NodeFlags::TEMPORARY)
            || (word == "notindexed"@ && bit == NodeFlags::NOT_INDEXED)
            || (word == "sparse"@ && bit == NodeFlags::SPARSE)
            || (word == "sp"@ && bit == NodeFlags::SPARSE)
            || (word == "ads"@ && bit == NodeFlags::ADS),
    ensures
        is_word(word),
        word.len() > 0,
        filter_grammar::attr_of(word) == Ok::<NodeFlags, Seq<char>>(NodeFlags(bit)),
{
    spell_attributes();
    let table = filter_grammar::attr_names();
    if word == "archive"@ {
        lemma_found(table, 0, word);
    }
    if word == "a"@ {
        lemma_found(table, 1, word);
    }
    if word == "system"@ {
        lemma_found(table, 2, word);
    }
    if word == "readonly"@ {
        lemma_found(table, 3, word);
    }
    if word == "ro"@ {
        lemma_found(table, 4, word);
    }
    if word == "hidden"@ {
        lemma_found(table, 5, word);
    }
    if word == "compressed"@ {
        lemma_found(table, 6, word);
    }
    if word == "encrypted"@ {
        lemma_found(table, 7, word);
    }
    if word == "offline"@ {
        lemma_found(table, 8, word);
    }
    if word == "temporary"@ {
        lemma_found(table, 9, word);
    }
    if word == "notindexed"@ {
        lemma_found(table, 10, word);
    }
    if word == "sparse"@ {
        lemma_found(table, 11, word);
    }
    if word == "sp"@ {
        lemma_found(table, 12, word);
    }
    if word == "ads"@ {
        lemma_found(table, 13, word);
    }
    lemma_word(word);
    assert(bit as u64 as u32 == bit);
}

/// The attribute condition of a word holds of exactly the nodes that have the
/// attribute, with a minus of those that do not; a negation turns that round.
pub proof fn law_attribute_conditions(
    word: Seq<char>,
    bit: u32,
    minus: bool,
    negated: bool,
    classes: Seq<ClassView>,
    s: State,
    id: NodeId,
    now: FileTime,
)
    requires
        (word == "archive"@ && bit == NodeFlags::ARCHIVE)
            || (word == "a"@ && bit == NodeFlags::ARCHIVE)
            || (word == "system"@ && bit == NodeFlags::SYSTEM)
            || (word == "readonly"@ && bit == NodeFlags::READONLY)
            || (word == "ro"@ && bit == NodeFlags::READONLY)
            || (word == "hidden"@ && bit == NodeFlags::HIDDEN)
            || (word == "compressed"@ && bit == NodeFlags::COMPRESSED)
            || (word == "encrypted"@ && bit == NodeFlags::ENCRYPTED)
            || (word == "offline"@ && bit == NodeFlags::OFFLINE)
            || (word == "temporary"@ && bit == NodeFlags::TEMPORARY)
            || (word == "notindexed"@ && bit == NodeFlags::NOT_INDEXED)
            || (word == "sparse"@ && bit == NodeFlags::SPARSE)
            || (word == "sp"@ && bit == NodeFlags::SPARSE)
            || (word == "ads"@ && bit == NodeFlags::ADS),
    ensures
        ({
            let (conds, warnings) = filter_grammar::parsed(
                not_text(negated) + ":attr:"@ + minus_text(minus) + word,
                classes,
            );
            let has = s.nodes[id as int].flags.0 & bit == bit;
            &&& conds.len() == 1
            &&& warnings.len() == 0
            &&& filter::passes(conds, s, id, now) <==> ((has != minus) != negated)
        }),
{
    lemma_attribute(word, bit);
    lemma_attr_text(word, bit, minus, negated, classes, s, id, now);
}

proof fn lemma_attr_text(
    word: Seq<char>,
    bit: u32,
    minus: bool,
    negated: bool,
    classes: Seq<ClassView>,
    s: State,
    id: NodeId,
    now: FileTime,
)
    requires
        is_word(word),
        word.len() > 0,
        filter_grammar::attr_of(word) == Ok::<NodeFlags, Seq<char>>(NodeFlags(bit)),
    ensures
        ({
            let (conds, warnings) = filter_grammar::parsed(
                not_text(negated) + ":attr:"@ + minus_text(minus) + word,
                classes,
            );
            let has = s.nodes[id as int].flags.0 & bit == bit;
            &&& conds.len() == 1
            &&& warnings.len() == 0
            &&& filter::passes(conds, s, id, now) <==> ((has != minus) != negated)
        }),
{
    let head = seq!['a', 't', 't', 'r', ':'];
    let payload = minus_text(minus) + word;
    let cmd = head + payload;
    let input = not_text(negated) + ":attr:"@ + minus_text(minus) + word;
    let test = AttrTest {
        flags: NodeFlags(bit),
        requirement: if minus {
            AttrRequirement::Clear
        } else {
            AttrRequirement::IsSet
        },
    };
    assert(input =~= not_text(negated) + seq![':'] + cmd) by {
        spell_commands();
    }
    lemma_attr_command(word, bit, minus, negated, classes);
    assert forall|i: int| 0 <= i < cmd.len() implies #[trigger] cmd[i] < '\u{80}' && !('A' <= cmd[i]
        <= 'Z') && cmd[i] != ';' && !text::is_space(cmd[i]) by {
        if i >= 5 + minus_text(minus).len() {
            assert(cmd[i] == word[i - 5 - minus_text(minus).len()]);
        }
    }
    let kind = KindView::Attr { tests: seq![test], negated };
    lemma_command(cmd, negated, classes, kind);
    lemma_one_condition(input, classes, kind, s, id, now);
    assert(seq![test][0].holds(s.nodes[id as int].flags) <==> filter::attrs_hold(
        seq![test],
        s.nodes[id as int].flags,
    ));
}

proof fn lemma_attr_command(
    word: Seq<char>,
    bit: u32,
    minus: bool,
    negated: bool,
    classes: Seq<ClassView>,
)
    requires
        is_word(word),
        word.len() > 0,
        filter_grammar::attr_of(word) == Ok::<NodeFlags, Seq<char>>(NodeFlags(bit)),
    ensures
        ({
            let cmd = seq!['a', 't', 't', 'r', ':'] + (minus_text(minus) + word);
            filter_grammar::command(cmd, cmd, negated, classes) == Ok::<KindView, Seq<char>>(
                KindView::Attr {
                    tests: seq![
                        AttrTest {
                            flags: NodeFlags(bit),
                            requirement: if minus {
                                AttrRequirement::Clear
                            } else {
                                AttrRequirement::IsSet
                            },
                        },
                    ],
                    negated,
                },
            )
        }),
{
    let head = seq!['a', 't', 't', 'r', ':'];
    let payload = minus_text(minus) + word;
    let cmd = head + payload;
    spell_commands();
    assert(cmd[0] == 'a');
    assert(!text::begins(cmd, "tag:"@));
    assert(!text::begins(cmd, "tags:"@));
    assert(payload.last() == word.last());
    lemma_payload(head, payload);
    lemma_one_item(word, minus);
    lemma_word(word);
    let items = seq![(minus, word)];
    assert(items.drop_last() =~= Seq::<(bool, Seq<char>)>::empty());
    assert(filter_grammar::attrs_of(items.drop_last()) == Ok::<Seq<AttrTest>, Seq<char>>(
        Seq::empty(),
    ));
    assert(filter_grammar::attrs_of(items)->Ok_0 =~= seq![
        AttrTest {
            flags: NodeFlags(bit),
            requirement: if minus {
                AttrRequirement::Clear
            } else {
                AttrRequirement::IsSet
            },
        },
    ]);
}

/// The names of commands, letter by letter.
proof fn spell_commands()
    ensures
        "tag:"@ == seq!['t', 'a', 'g', ':'],
        "tags:"@ == seq!['t', 'a', 'g', 's', ':'],
        "attr:"@ == seq!['a', 't', 't', 'r', ':'],
        "attrs:"@ == seq!['a', 't', 't', 'r', 's', ':'],
        "class:"@ == seq!['c', 'l', 'a', 's', 's', ':'],
        ":attr:"@ == seq![':', 'a', 't', 't', 'r', ':'],
        ":tag:"@ == seq![':', 't', 'a', 'g', ':'],
        ":class:"@ == seq![':', 'c', 'l', 'a', 's', 's', ':'],
{
    reveal_strlit("tag:");
    reveal_strlit("tags:");
    reveal_strlit("attr:");
    reveal_strlit("attrs:");
    reveal_strlit("class:");
    reveal_strlit(":attr:");
    reveal_strlit(":tag:");
    reveal_strlit(":class:");
    assert("tag:"@ =~= seq!['t', 'a', 'g', ':']);
    assert("tags:"@ =~= seq!['t', 'a', 'g', 's', ':']);
    assert("attr:"@ =~= seq!['a', 't', 't', 'r', ':']);
    assert("attrs:"@ =~= seq!['a', 't', 't', 'r', 's', ':']);
    assert("class:"@ =~= seq!['c', 'l', 'a', 's', 's', ':']);
    assert(":attr:"@ =~= seq![':', 'a', 't', 't', 'r', ':']);
    assert(":tag:"@ =~= seq![':', 't', 'a', 'g', ':']);
    assert(":class:"@ =~= seq![':', 'c', 'l', 'a', 's', 's', ':']);
}

/// What stands behind the name of a command is its payload.
proof fn lemma_payload(head: Seq<char>, payload: Seq<char>)
    requires
        payload.len() > 0,
        !text::is_space(payload[0]),
        !text::is_space(payload.last()),
    ensures
        text::begins(head + payload, head),
        filter_grammar::payload_after(head + payload, head.len()) == payload,
{
    assert((head + payload).take(head.len() as int) =~= head);
    assert((head + payload).skip(head.len() as int) =~= payload);
    lemma_trimmed(payload);
}

/// The names of tags, letter by letter.
proof fn spell_tags()
    ensures
        "red"@ == seq!['r', 'e', 'd'],
        "r"@ == seq!['r'],
        "1"@ == seq!['1'],
        "yellow"@ == seq!['y', 'e', 'l', 'l', 'o', 'w'],
        "y"@ == seq!['y'],
        "2"@ == seq!['2'],
        "green"@ == seq!['g', 'r', 'e', 'e', 'n'],
        "g"@ == seq!['g'],
        "3"@ == seq!['3'],
        "blue"@ == seq!['b', 'l', 'u', 'e'],
        "b"@ == seq!['b'],
        "4"@ == seq!['4'],
        "all"@ == seq!['a', 'l', 'l'],
        "a"@ == seq!['a'],
{
    reveal_strlit("red");
    reveal_strlit("r");
    reveal_strlit("1");
    reveal_strlit("yellow");
    reveal_strlit("y");
    reveal_strlit("2");
    reveal_strlit("green");
    reveal_strlit("g");
    reveal_strlit("3");
    reveal_strlit("blue");
    reveal_strlit("b");
    reveal_strlit("4");
    reveal_strlit("all");
    reveal_strlit("a");
    assert("red"@ =~= seq!['r', 'e', 'd']);
    assert("r"@ =~= seq!['r']);
    assert("1"@ =~= seq!['1']);
    assert("yellow"@ =~= seq!['y', 'e', 'l', 'l', 'o', 'w']);
    assert("y"@ =~= seq!['y']);
    assert("2"@ =~= seq!['2']);
    assert("green"@ =~= seq!['g', 'r', 'e', 'e', 'n']);
    assert("g"@ =~= seq!['g']);
    assert("3"@ =~= seq!['3']);
    assert("blue"@ =~= seq!['b', 'l', 'u', 'e']);
    assert("b"@ =~= seq!['b']);
    assert("4"@ =~= seq!['4']);
    assert("all"@ =~= seq!['a', 'l', 'l']);
    assert("a"@ =~= seq!['a']);
}

/// What each name of a tag means.
proof fn lemma_tag_word(word: Seq<char>, tag: Tag)
    requires
        (word == "red"@ && tag == Tag::Red)
            || (word == "r"@ && tag == Tag::Red)
            || (word == "1"@ && tag == Tag::Red)
            || (word == "yellow"@ && tag == Tag::Yellow)
            || (word == "y"@ && tag == Tag::Yellow)
            || (word == "2"@ && tag == Tag::Yellow)
            || (word == "green"@ && tag == Tag::Green)
            || (word == "g"@ && tag == Tag::Green)
            || (word == "3"@ && tag == Tag::Green)
            || (word == "blue"@ && tag == Tag::Blue)
            || (word == "b"@ && tag == Tag::Blue)
            || (word == "4"@ && tag == Tag::Blue),
    ensures
        is_plain(word),
        0 < word.len() < 7,
        filter_grammar::tag_word(word) == Some(tag),
        !filter_grammar::is_all(word),
        filter_grammar::item_tags(word) == Ok::<u8, Seq<char>>(filter_ast::tag_bit(tag)),
{
    spell_tags();
    assert(is_plain(word));
    lemma_word(word);
}

/// A word is no command with a payload.
proof fn lemma_bare(word: Seq<char>)
    requires
        is_plain(word),
    ensures
        !text::begins(word, "tag:"@),
        !text::begins(word, "tags:"@),
        !text::begins(word, "attr:"@),
        !text::begins(word, "attrs:"@),
        !text::begins(word, "class:"@),
{
    spell_commands();
    if text::begins(word, "tag:"@) {
        assert(word.take(4)[3] == word[3]);
    }
    if text::begins(word, "tags:"@) {
        assert(word.take(5)[4] == word[4]);
    }
    if text::begins(word, "attr:"@) {
        assert(word.take(5)[4] == word[4]);
    }
    if text::begins(word, "attrs:"@) {
        assert(word.take(6)[5] == word[5]);
    }
    if text::begins(word, "class:"@) {
        assert(word.take(6)[5] == word[5]);
    }
}

/// Whether a node or one above it bears a tag.
pub open spec fn bears(s: State, id: NodeId, tag: Tag) -> bool {
    exists|x: NodeId|
        s.live(x) && #[trigger] s.within(id, x) && s.nodes[x as int].tag == Some(tag)
}

proof fn lemma_bears(s: State, id: NodeId)
    ensures
        forall|t: Tag| #[trigger] filter::tags_on(s, id)(t) == bears(s, id, t),
{
}

/// The condition of a colour alone, such as `:red`, `:r` or `:1`, holds of the
/// nodes that bear the tag themselves or have it from a node above them.
pub proof fn law_tag_conditions(
    word: Seq<char>,
    tag: Tag,
    negated: bool,
    classes: Seq<ClassView>,
    s: State,
    id: NodeId,
    now: FileTime,
)
    requires
        (word == "red"@ && tag == Tag::Red)
            || (word == "r"@ && tag == Tag::Red)
            || (word == "1"@ && tag == Tag::Red)
            || (word == "yellow"@ && tag == Tag::Yellow)
            || (word == "y"@ && tag == Tag::Yellow)
            || (word == "2"@ && tag == Tag::Yellow)
            || (word == "green"@ && tag == Tag::Green)
            || (word == "g"@ && tag == Tag::Green)
            || (word == "3"@ && tag == Tag::Green)
            || (word == "blue"@ && tag == Tag::Blue)
            || (word == "b"@ && tag == Tag::Blue)
            || (word == "4"@ && tag == Tag::Blue),
    ensures
        ({
            let (conds, warnings) = filter_grammar::parsed(
                not_text(negated) + seq![':'] + word,
                classes,
            );
            &&& conds.len() == 1
            &&& warnings.len() == 0
            &&& filter::passes(conds, s, id, now) <==> (bears(s, id, tag) != negated)
        }),
{
    lemma_tag_word(word, tag);
    lemma_tag_text(word, tag, negated, classes, s, id, now);
}

proof fn lemma_tag_text(
    word: Seq<char>,
    tag: Tag,
    negated: bool,
    classes: Seq<ClassView>,
    s: State,
    id: NodeId,
    now: FileTime,
)
    requires
        is_plain(word),
        word.len() > 0,
        filter_grammar::tag_word(word) == Some(tag),
        !filter_grammar::is_all(word),
    ensures
        ({
            let (conds, warnings) = filter_grammar::parsed(
                not_text(negated) + seq![':'] + word,
                classes,
            );
            &&& conds.len() == 1
            &&& warnings.len() == 0
            &&& filter::passes(conds, s, id, now) <==> (bears(s, id, tag) != negated)
        }),
{
    let bit = filter_ast::tag_bit(tag);
    let expr = TagExpr { included: TagSet(bit), excluded: TagSet(0) };
    let kind = KindView::Tag { expr, negated };
    lemma_bare(word);
    lemma_command(word, negated, classes, kind);
    lemma_one_condition(not_text(negated) + seq![':'] + word, classes, kind, s, id, now);
    filter_ast::lemma_bits();
    lemma_bears(s, id);
    assert(bit == 1 || bit == 2 || bit == 4 || bit == 8);
    lemma_no_bits();
    assert(expr.holds(filter::tags_on(s, id)) <==> bears(s, id, tag)) by {
        if bears(s, id, tag) {
            assert(filter::tags_on(s, id)(tag));
            assert(expr.included.has(tag));
        }
    }
}

/// No tag has its bit in zero.
proof fn lemma_no_bits()
    ensures
        forall|t: Tag| !#[trigger] TagSet(0).has(t),
{
    assert(0u8 & 1 == 0 && 0u8 & 2 == 0 && 0u8 & 4 == 0 && 0u8 & 8 == 0) by (bit_vector);
}

/// The condition `:all` or `:a` holds of the nodes that bear any tag.
pub proof fn law_any_tag(
    word: Seq<char>,
    negated: bool,
    classes: Seq<ClassView>,
    s: State,
    id: NodeId,
    now: FileTime,
)
    requires
        word == "all"@ || word == "a"@,
    ensures
        ({
            let (conds, warnings) = filter_grammar::parsed(
                not_text(negated) + seq![':'] + word,
                classes,
            );
            let any = bears(s, id, Tag::Red) || bears(s, id, Tag::Yellow) || bears(
                s,
                id,
                Tag::Green,
            ) || bears(s, id, Tag::Blue);
            &&& conds.len() == 1
            &&& warnings.len() == 0
            &&& filter::passes(conds, s, id, now) <==> (any != negated)
        }),
{
    assert(is_plain(word) && word.len() > 0) by {
        spell_tags();
    }
    let kind = KindView::Tag {
        expr: TagExpr { included: TagSet(TagSet::ALL), excluded: TagSet(0) },
        negated,
    };
    lemma_bare(word);
    lemma_command(word, negated, classes, kind);
    lemma_one_condition(not_text(negated) + seq![':'] + word, classes, kind, s, id, now);
    lemma_bears(s, id);
    lemma_no_bits();
    assert(15u8 & 1 != 0 && 15u8 & 2 != 0 && 15u8 & 4 != 0 && 15u8 & 8 != 0) by (bit_vector);
    let on = filter::tags_on(s, id);
    assert(on(Tag::Red) == bears(s, id, Tag::Red));
    assert(on(Tag::Yellow) == bears(s, id, Tag::Yellow));
    assert(on(Tag::Green) == bears(s, id, Tag::Green));
    assert(on(Tag::Blue) == bears(s, id, Tag::Blue));
}

/// A tag expression of two names asks for one of the two, with a minus before the
/// second for the first without the second.
pub proof fn law_tag_expressions(
    word: Seq<char>,
    tag: Tag,
    other: Seq<char>,
    other_tag: Tag,
    sep: char,
    negated: bool,
    classes: Seq<ClassView>,
    s: State,
    id: NodeId,
    now: FileTime,
)
    requires
        (word == "red"@ && tag == Tag::Red)
            || (word == "r"@ && tag == Tag::Red)
            || (word == "1"@ && tag == Tag::Red)
            || (word == "yellow"@ && tag == Tag::Yellow)
            || (word == "y"@ && tag == Tag::Yellow)
            || (word == "2"@ && tag == Tag::Yellow)
            || (word == "green"@ && tag == Tag::Green)
            || (word == "g"@ && tag == Tag::Green)
            || (word == "3"@ && tag == Tag::Green)
            || (word == "blue"@ && tag == Tag::Blue)
            || (word == "b"@ && tag == Tag::Blue)
            || (word == "4"@ && tag == Tag::Blue),
        (other == "red"@ && other_tag == Tag::Red)
            || (other == "r"@ && other_tag == Tag::Red)
            || (other == "1"@ && other_tag == Tag::Red)
            || (other == "yellow"@ && other_tag == Tag::Yellow)
            || (other == "y"@ && other_tag == Tag::Yellow)
            || (other == "2"@ && other_tag == Tag::Yellow)
            || (other == "green"@ && other_tag == Tag::Green)
            || (other == "g"@ && other_tag == Tag::Green)
            || (other == "3"@ && other_tag == Tag::Green)
            || (other == "blue"@ && other_tag == Tag::Blue)
            || (other == "b"@ && other_tag == Tag::Blue)
            || (other == "4"@ && other_tag == Tag::Blue),
        sep == ',' || sep == '+' || sep == '-',
    ensures
        ({
            let (conds, warnings) = filter_grammar::parsed(
                not_text(negated) + ":tag:"@ + word + seq![sep] + other,
                classes,
            );
            let met = if sep == '-' {
                bears(s, id, tag) && !bears(s, id, other_tag)
            } else {
                bears(s, id, tag) || bears(s, id, other_tag)
            };
            &&& conds.len() == 1
            &&& warnings.len() == 0
            &&& filter::passes(conds, s, id, now) <==> (met != negated)
        }),
{
    lemma_tag_word(word, tag);
    lemma_tag_word(other, other_tag);
    lemma_tag_items(word, tag, other, other_tag, sep);
    let expr = tag_pair(tag, other_tag, sep);
    lemma_tag_pair(word, other, sep, negated, classes, expr);
    lemma_tag_pair_holds(tag, other_tag, sep, s, id);
    lemma_one_condition(
        not_text(negated) + ":tag:"@ + word + seq![sep] + other,
        classes,
        KindView::Tag { expr, negated },
        s,
        id,
        now,
    );
}

proof fn lemma_tag_items(word: Seq<char>, tag: Tag, other: Seq<char>, other_tag: Tag, sep: char)
    requires
        is_plain(word),
        is_plain(other),
        word.len() > 0,
        other.len() > 0,
        filter_grammar::item_tags(word) == Ok::<u8, Seq<char>>(filter_ast::tag_bit(tag)),
        filter_grammar::item_tags(other) == Ok::<u8, Seq<char>>(filter_ast::tag_bit(other_tag)),
        sep == ',' || sep == '+' || sep == '-',
    ensures
        filter_grammar::tag_expr(word + seq![sep] + other) == Ok::<TagExpr, Seq<char>>(
            tag_pair(tag, other_tag, sep),
        ),
{
    let a = filter_ast::tag_bit(tag);
    let b = filter_ast::tag_bit(other_tag);
    lemma_two_items(word, other, sep);
    assert(a == 1 || a == 2 || a == 4 || a == 8);
    assert(b == 1 || b == 2 || b == 4 || b == 8);
    assert(0u8 | a == a && 0u8 | b == b) by (bit_vector);
    assert(a != 0 ==> a | b != 0) by (bit_vector);
    let items = seq![(false, word), (sep == '-', other)];
    assert(items.drop_last() =~= seq![(false, word)]);
    assert(items.drop_last().drop_last() =~= Seq::<(bool, Seq<char>)>::empty());
    let none = TagExpr { included: TagSet(0), excluded: TagSet(0) };
    assert(filter_grammar::tags_of(items.drop_last().drop_last()) == Ok::<TagExpr, Seq<char>>(
        none,
    ));
    assert(filter_grammar::tags_of(items.drop_last()) == Ok::<TagExpr, Seq<char>>(
        TagExpr { included: TagSet(a), excluded: TagSet(0) },
    ));
    assert(filter_grammar::tags_of(items) == Ok::<TagExpr, Seq<char>>(
        tag_pair(tag, other_tag, sep),
    ));
}

/// The tag expression of two tags with a comma or a sign between them.
spec fn tag_pair(tag: Tag, other: Tag, sep: char) -> TagExpr {
    let a = filter_ast::tag_bit(tag);
    let b = filter_ast::tag_bit(other);
    if sep == '-' {
        TagExpr { included: TagSet(a), excluded: TagSet(b) }
    } else {
        TagExpr { included: TagSet(a | b), excluded: TagSet(0) }
    }
}

proof fn lemma_tag_pair_holds(tag: Tag, other: Tag, sep: char, s: State, id: NodeId)
    ensures
        tag_pair(tag, other, sep).holds(filter::tags_on(s, id)) <==> if sep == '-' {
            bears(s, id, tag) && !bears(s, id, other)
        } else {
            bears(s, id, tag) || bears(s, id, other)
        },
{
    let a = filter_ast::tag_bit(tag);
    let b = filter_ast::tag_bit(other);
    lemma_bears(s, id);
    lemma_no_bits();
    filter_ast::lemma_bits();
    filter_ast::lemma_union(a, b);
    assert(a == 1 || a == 2 || a == 4 || a == 8);
    assert(a != 0 ==> a | b != 0) by (bit_vector);
    let on = filter::tags_on(s, id);
    assert(forall|t: Tag| #[trigger] TagSet(a).has(t) <==> t == tag);
    assert(forall|t: Tag| #[trigger] TagSet(b).has(t) <==> t == other);
    assert(on(tag) == bears(s, id, tag));
    assert(on(other) == bears(s, id, other));
}

proof fn lemma_tag_pair(
    word: Seq<char>,
    other: Seq<char>,
    sep: char,
    negated: bool,
    classes: Seq<ClassView>,
    expr: TagExpr,
)
    requires
        is_plain(word),
        is_plain(other),
        word.len() > 0,
        other.len() > 0,
        sep == ',' || sep == '+' || sep == '-',
        filter_grammar::tag_expr(word + seq![sep] + other) == Ok::<TagExpr, Seq<char>>(expr),
    ensures
        single(not_text(negated) + ":tag:"@ + word + seq![sep] + other, classes) == Some(
            KindView::Tag { expr, negated },
        ),
{
    let head = seq!['t', 'a', 'g', ':'];
    let payload = word + seq![sep] + other;
    let cmd = head + payload;
    let kind = KindView::Tag { expr, negated };
    spell_commands();
    assert(not_text(negated) + ":tag:"@ + word + seq![sep] + other =~= not_text(negated) + seq![':']
        + cmd);
    assert(payload[0] == word[0]);
    assert(payload.last() == other.last());
    lemma_payload(head, payload);
    assert(filter_grammar::command(cmd, cmd, negated, classes) == Ok::<KindView, Seq<char>>(kind));
    assert forall|i: int| 0 <= i < cmd.len() implies #[trigger] cmd[i] < '\u{80}' && !('A' <= cmd[i]
        <= 'Z') && cmd[i] != ';' && !text::is_space(cmd[i]) by {
        if 4 <= i < 4 + word.len() {
            assert(cmd[i] == word[i - 4]);
        } else if i > 4 + word.len() {
            assert(cmd[i] == other[i - 5 - word.len()]);
        }
    }
    lemma_command(cmd, negated, classes, kind);
}

/// An attribute expression of two names asks for both, with a minus before the
/// second for the first without the second.
pub proof fn law_attribute_expressions(
    word: Seq<char>,
    bit: u32,
    other: Seq<char>,
    other_bit: u32,
    sep: char,
    negated: bool,
    classes: Seq<ClassView>,
    s: State,
    id: NodeId,
    now: FileTime,
)
    requires
        is_word(word),
        word.len() > 0,
        filter_grammar::attr_of(word) == Ok::<NodeFlags, Seq<char>>(NodeFlags(bit)),
        is_word(other),
        other.len() > 0,
        filter_grammar::attr_of(other) == Ok::<NodeFlags, Seq<char>>(NodeFlags(other_bit)),
        sep == ',' || sep == '+' || sep == '-',
    ensures
        ({
            let (conds, warnings) = filter_grammar::parsed(
                not_text(negated) + ":attr:"@ + word + seq![sep] + other,
                classes,
            );
            let flags = s.nodes[id as int].flags.0;
            let met = flags & bit == bit && (flags & other_bit == other_bit) == (sep != '-');
            &&& conds.len() == 1
            &&& warnings.len() == 0
            &&& filter::passes(conds, s, id, now) <==> (met != negated)
        }),
{
    let tests = attr_pair(bit, other_bit, sep);
    let flags = s.nodes[id as int].flags;
    lemma_attr_items(word, bit, other, other_bit, sep);
    lemma_attr_pair(word, other, sep, negated, classes, tests);
    assert(filter::attrs_hold(tests, flags) <==> tests[0].holds(flags) && tests[1].holds(flags));
    lemma_one_condition(
        not_text(negated) + ":attr:"@ + word + seq![sep] + other,
        classes,
        KindView::Attr { tests, negated },
        s,
        id,
        now,
    );
}

/// The tests of two attributes with a comma or a sign between them.
spec fn attr_pair(bit: u32, other_bit: u32, sep: char) -> Seq<AttrTest> {
    seq![
        AttrTest { flags: NodeFlags(bit), requirement: AttrRequirement::IsSet },
        AttrTest {
            flags: NodeFlags(other_bit),
            requirement: if sep == '-' {
                AttrRequirement::Clear
            } else {
                AttrRequirement::IsSet
            },
        },
    ]
}

proof fn lemma_attr_items(
    word: Seq<char>,
    bit: u32,
    other: Seq<char>,
    other_bit: u32,
    sep: char,
)
    requires
        is_word(word),
        is_word(other),
        word.len() > 0,
        other.len() > 0,
        filter_grammar::attr_of(word) == Ok::<NodeFlags, Seq<char>>(NodeFlags(bit)),
        filter_grammar::attr_of(other) == Ok::<NodeFlags, Seq<char>>(NodeFlags(other_bit)),
        sep == ',' || sep == '+' || sep == '-',
    ensures
        filter_grammar::attr_expr(word + seq![sep] + other) == Ok::<Seq<AttrTest>, Seq<char>>(
            attr_pair(bit, other_bit, sep),
        ),
{
    lemma_two_items(word, other, sep);
    lemma_word(word);
    lemma_word(other);
    let items = seq![(false, word), (sep == '-', other)];
    let tests = attr_pair(bit, other_bit, sep);
    assert(items.drop_last() =~= seq![(false, word)]);
    assert(items.drop_last().drop_last() =~= Seq::<(bool, Seq<char>)>::empty());
    assert(filter_grammar::attrs_of(items.drop_last().drop_last()) == Ok::<
        Seq<AttrTest>,
        Seq<char>,
    >(Seq::empty()));
    assert(filter_grammar::attrs_of(items.drop_last())->Ok_0 =~= seq![tests[0]]);
    assert(filter_grammar::attrs_of(items) is Ok);
    assert(filter_grammar::attrs_of(items)->Ok_0 =~= tests);
}

proof fn lemma_attr_pair(
    word: Seq<char>,
    other: Seq<char>,
    sep: char,
    negated: bool,
    classes: Seq<ClassView>,
    tests: Seq<AttrTest>,
)
    requires
        is_plain(word),
        is_plain(other),
        word.len() > 0,
        other.len() > 0,
        sep == ',' || sep == '+' || sep == '-',
        filter_grammar::attr_expr(word + seq![sep] + other) == Ok::<Seq<AttrTest>, Seq<char>>(
            tests,
        ),
    ensures
        single(not_text(negated) + ":attr:"@ + word + seq![sep] + other, classes) == Some(
            KindView::Attr { tests, negated },
        ),
{
    let head = seq!['a', 't', 't', 'r', ':'];
    let payload = word + seq![sep] + other;
    let cmd = head + payload;
    let kind = KindView::Attr { tests, negated };
    spell_commands();
    assert(not_text(negated) + ":attr:"@ + word + seq![sep] + other =~= not_text(negated) + seq![
        ':',
    ] + cmd);
    assert(cmd[0] == 'a');
    assert(!text::begins(cmd, "tag:"@));
    assert(!text::begins(cmd, "tags:"@));
    assert(payload[0] == word[0]);
    assert(payload.last() == other.last());
    lemma_payload(head, payload);
    assert(filter_grammar::command(cmd, cmd, negated, classes) == Ok::<KindView, Seq<char>>(kind));
    assert forall|i: int| 0 <= i < cmd.len() implies #[trigger] cmd[i] < '\u{80}' && !('A' <= cmd[i]
        <= 'Z') && cmd[i] != ';' && !text::is_space(cmd[i]) by {
        if 5 <= i < 5 + word.len() {
            assert(cmd[i] == word[i - 5]);
        } else if i > 5 + word.len() {
            assert(cmd[i] == other[i - 6 - word.len()]);
        }
    }
    lemma_command(cmd, negated, classes, kind);
}

/// A condition without any of the signs that make it something else is a mask: it
/// holds of the nodes whose names match it.
pub proof fn law_mask_conditions(
    pattern: Seq<char>,
    negated: bool,
    classes: Seq<ClassView>,
    s: State,
    id: NodeId,
    now: FileTime,
)
    requires
        pattern.len() > 0,
        !pattern.contains(';'),
        !pattern.contains('<'),
        !pattern.contains('>'),
        pattern[0] != '|',
        pattern[0] != '\\',
        pattern[0] != ':',
        !text::is_space(pattern[0]),
        !text::is_space(pattern.last()),
    ensures
        ({
            let (conds, warnings) = filter_grammar::parsed(not_text(negated) + pattern, classes);
            &&& conds.len() == 1
            &&& warnings.len() == 0
            &&& filter::passes(conds, s, id, now) <==> (glob::glob(
                pattern,
                s.nodes[id as int].name@,
            ) != negated)
        }),
{
    let input = not_text(negated) + pattern;
    let kind = KindView::FileMask { pattern, negated };
    lemma_negatable(pattern, negated);
    lemma_single(input, classes, kind);
    lemma_one_condition(input, classes, kind, s, id, now);
}

/// A piece behind a negation is what follows the sign.
proof fn lemma_negatable(rest: Seq<char>, negated: bool)
    requires
        rest.len() > 0,
        !rest.contains(';'),
        !text::is_space(rest[0]),
        !text::is_space(rest.last()),
    ensures
        ({
            let s = not_text(negated) + rest;
            &&& s.len() > 0
            &&& !s.contains(';')
            &&& !text::is_space(s[0])
            &&& !text::is_space(s.last())
            &&& negated ==> s[0] == '|' && text::trim_start(s.drop_first()) == rest
            &&& !negated ==> s == rest
        }),
{
    let s = not_text(negated) + rest;
    let h = not_text(negated).len() as int;
    assert forall|i: int| 0 <= i < s.len() implies #[trigger] s[i] != ';' by {
        if i >= h {
            assert(s[i] == rest[i - h]);
            assert(rest.contains(rest[i - h]));
        }
    }
    assert(s.last() == rest.last());
    if negated {
        assert(s.drop_first() =~= rest);
        lemma_trimmed(rest);
    } else {
        assert(s =~= rest);
    }
}

/// A mask behind a backslash holds of the folders whose names match it and of
/// everything in them.
pub proof fn law_folder_conditions(
    pattern: Seq<char>,
    negated: bool,
    classes: Seq<ClassView>,
    s: State,
    id: NodeId,
    now: FileTime,
)
    requires
        pattern.len() > 0,
        !pattern.contains(';'),
        !text::is_space(pattern.last()),
    ensures
        ({
            let (conds, warnings) = filter_grammar::parsed(
                not_text(negated) + (seq!['\\'] + pattern),
                classes,
            );
            let inside = exists|x: NodeId|
                s.live(x) && #[trigger] s.within(id, x) && s.nodes[x as int].kind
                    == NodeKind::Directory && glob::glob(pattern, s.nodes[x as int].name@);
            &&& conds.len() == 1
            &&& warnings.len() == 0
            &&& filter::passes(conds, s, id, now) <==> (inside != negated)
        }),
{
    let rest = seq!['\\'] + pattern;
    let input = not_text(negated) + rest;
    let kind = KindView::FolderMask { pattern, negated };
    assert forall|i: int| 0 <= i < rest.len() implies #[trigger] rest[i] != ';' by {
        if i > 0 {
            assert(rest[i] == pattern[i - 1]);
            assert(pattern.contains(pattern[i - 1]));
        }
    }
    assert(rest[0] == '\\');
    assert(rest.last() == pattern.last());
    lemma_negatable(rest, negated);
    assert(rest.drop_first() =~= pattern);
    lemma_single(input, classes, kind);
    lemma_one_condition(input, classes, kind, s, id, now);
}

/// The extension of a name is what follows its last dot.
pub proof fn law_extension(stem: Seq<char>, ext: Seq<char>)
    requires
        !ext.contains('.'),
    ensures
        filter::extension(stem + seq!['.'] + ext) == Some(ext),
    decreases ext.len(),
{
    let name = stem + seq!['.'] + ext;
    if ext.len() == 0 {
        assert(name.last() == '.');
        assert(ext =~= Seq::<char>::empty());
    } else {
        assert(name.last() == ext.last());
        assert(ext.contains(ext.last()));
        assert(name.drop_last() =~= stem + seq!['.'] + ext.drop_last());
        assert forall|i: int| 0 <= i < ext.drop_last().len() implies ext.drop_last()[i] != '.' by {
            assert(ext.contains(ext[i]));
        }
        law_extension(stem, ext.drop_last());
        assert(ext.drop_last().push(ext.last()) =~= ext);
    }
}

/// A name without a dot has no extension.
pub proof fn law_no_extension(name: Seq<char>)
    requires
        !name.contains('.'),
    ensures
        filter::extension(name) is None,
    decreases name.len(),
{
    if name.len() > 0 {
        assert(name.contains(name.last()));
        assert forall|i: int| 0 <= i < name.drop_last().len() implies name.drop_last()[i] != '.' by {
            assert(name.contains(name[i]));
        }
        law_no_extension(name.drop_last());
    }
}

proof fn lemma_class(classes: Seq<ClassView>, i: int, word: Seq<char>)
    requires
        0 <= i < classes.len(),
        text::same_ascii(classes[i].name, word),
        forall|j: int| 0 <= j < i ==> !text::same_ascii((#[trigger] classes[j]).name, word),
    ensures
        filter_grammar::class_of(classes, word) == Some(classes[i]),
    decreases classes.len(),
{
    if i > 0 {
        let rest = classes.drop_first();
        assert forall|j: int| 0 <= j < i - 1 implies !text::same_ascii(
            (#[trigger] rest[j]).name,
            word,
        ) by {
            assert(rest[j] == classes[j + 1]);
        }
        lemma_class(rest, i - 1, word);
    }
}

/// A class condition holds of the nodes whose extension is among those of the first
/// class of that name, whatever the case of the letters.
pub proof fn law_class_conditions(
    word: Seq<char>,
    i: int,
    negated: bool,
    classes: Seq<ClassView>,
    s: State,
    id: NodeId,
    now: FileTime,
    stem: Seq<char>,
    ext: Seq<char>,
)
    requires
        is_word(word),
        word.len() > 0,
        0 <= i < classes.len(),
        text::same_ascii(classes[i].name, word),
        forall|j: int| 0 <= j < i ==> !text::same_ascii((#[trigger] classes[j]).name, word),
        !ext.contains('.'),
        ext.len() > 0,
        s.nodes[id as int].name@ == stem + seq!['.'] + ext,
    ensures
        ({
            let (conds, warnings) = filter_grammar::parsed(
                not_text(negated) + ":class:"@ + word,
                classes,
            );
            let among = exists|k: int|
                0 <= k < classes[i].extensions.len() && text::same_ascii(
                    #[trigger] classes[i].extensions[k],
                    ext,
                );
            &&& conds.len() == 1
            &&& warnings.len() == 0
            &&& filter::passes(conds, s, id, now) <==> (among != negated)
        }),
{
    let c = classes[i];
    let head = seq!['c', 'l', 'a', 's', 's', ':'];
    let cmd = head + word;
    let input = not_text(negated) + ":class:"@ + word;
    let kind = KindView::Class { name: c.name, extensions: c.extensions, negated };
    assert(input =~= not_text(negated) + seq![':'] + cmd) by {
        spell_commands();
    }
    lemma_class(classes, i, word);
    lemma_class_command(word, negated, classes, c);
    assert forall|k: int| 0 <= k < cmd.len() implies #[trigger] cmd[k] < '\u{80}' && !('A' <= cmd[k]
        <= 'Z') && cmd[k] != ';' && !text::is_space(cmd[k]) by {
        if k >= 6 {
            assert(cmd[k] == word[k - 6]);
        }
    }
    lemma_command(cmd, negated, classes, kind);
    lemma_one_condition(input, classes, kind, s, id, now);
    law_extension(stem, ext);
}

proof fn lemma_class_command(
    word: Seq<char>,
    negated: bool,
    classes: Seq<ClassView>,
    c: ClassView,
)
    requires
        is_word(word),
        word.len() > 0,
        filter_grammar::class_of(classes, word) == Some(c),
    ensures
        ({
            let cmd = seq!['c', 'l', 'a', 's', 's', ':'] + word;
            filter_grammar::command(cmd, cmd, negated, classes) == Ok::<KindView, Seq<char>>(
                KindView::Class { name: c.name, extensions: c.extensions, negated },
            )
        }),
{
    let head = seq!['c', 'l', 'a', 's', 's', ':'];
    let cmd = head + word;
    spell_commands();
    assert(cmd[0] == 'c');
    assert(!text::begins(cmd, "tag:"@));
    assert(!text::begins(cmd, "tags:"@));
    assert(!text::begins(cmd, "attr:"@));
    assert(!text::begins(cmd, "attrs:"@));
    lemma_payload(head, word);
}

/// Whether a condition is negated. Sizes and ages cannot be.
pub open spec fn is_negated(kind: KindView) -> bool {
    match kind {
        KindView::FileMask { negated, .. } => negated,
        KindView::FolderMask { negated, .. } => negated,
        KindView::Tag { negated, .. } => negated,
        KindView::Attr { negated, .. } => negated,
        KindView::Class { negated, .. } => negated,
        KindView::Size { .. } => false,
        KindView::Age { .. } => false,
    }
}

/// Whether a condition names nodes: masks, tags and classes do.
pub open spec fn names_nodes(kind: KindView) -> bool {
    kind is FileMask || kind is FolderMask || kind is Tag || kind is Class
}

/// A filter lets a node pass exactly if no negated condition holds of it, each
/// condition on size, age or attributes holds of it, and one of the masks, tags and
/// classes does, if there are any.
pub proof fn law_conditions_together(
    conds: Seq<ConditionView>,
    s: State,
    id: NodeId,
    now: FileTime,
)
    ensures
        filter::passes(conds, s, id, now) <==> {
            &&& forall|i: int|
                0 <= i < conds.len() && is_negated((#[trigger] conds[i]).kind) ==> !filter::holds(
                    s,
                    id,
                    conds[i].kind,
                    now,
                )
            &&& forall|i: int|
                0 <= i < conds.len() && !is_negated((#[trigger] conds[i]).kind) && !names_nodes(
                    conds[i].kind,
                ) ==> filter::holds(s, id, conds[i].kind, now)
            &&& (exists|i: int|
                0 <= i < conds.len() && !is_negated((#[trigger] conds[i]).kind) && names_nodes(
                    conds[i].kind,
                )) ==> exists|i: int|
                0 <= i < conds.len() && !is_negated((#[trigger] conds[i]).kind) && names_nodes(
                    conds[i].kind,
                ) && filter::holds(s, id, conds[i].kind, now)
        },
{
    assert forall|i: int| 0 <= i < conds.len() implies {
        let k = (#[trigger] conds[i]).kind;
        &&& filter::group(k) == filter::Group::Exclusion <==> is_negated(k)
        &&& filter::group(k) == filter::Group::Inclusion <==> !is_negated(k) && names_nodes(k)
        &&& filter::group(k) == filter::Group::Demand <==> !is_negated(k) && !names_nodes(k)
    } by {}
}

/// A node is visible exactly if it passes, dimmed if it does not but something
/// below it does, and hidden otherwise.
pub proof fn law_verdicts(conds: Seq<ConditionView>, s: State, id: NodeId, now: FileTime)
    ensures
        ({
            let below = exists|x: NodeId| #[trigger]
                s.within(x, id) && x != id && filter::passes(conds, s, x, now);
            let v = filter::verdict(conds, s, id, now);
            &&& v == FilterVerdict::Visible <==> filter::passes(conds, s, id, now)
            &&& v == FilterVerdict::Dimmed <==> !filter::passes(conds, s, id, now) && below
            &&& v == FilterVerdict::Hidden <==> !filter::passes(conds, s, id, now) && !below
        }),
{
}

proof fn lemma_started(table: Seq<(Seq<char>, u64)>, w: Seq<char>)
    ensures
        forall|e: (Seq<char>, u64)|
            filter_grammar::started(table, w).contains(e) <==> #[trigger] table.contains(e)
                && text::begins(e.0, w),
    decreases table.len(),
{
    if table.len() > 0 {
        let most = table.drop_last();
        let last = table.last();
        lemma_started(most, w);
        let before = filter_grammar::started(most, w);
        let all = filter_grammar::started(table, w);
        assert forall|e: (Seq<char>, u64)|
            all.contains(e) <==> #[trigger] table.contains(e) && text::begins(e.0, w) by {
            if all.contains(e) {
                let k = choose|k: int| 0 <= k < all.len() && all[k] == e;
                if k < before.len() {
                    assert(before[k] == e);
                    assert(before.contains(e));
                    assert(most.contains(e));
                    let j = choose|j: int| 0 <= j < most.len() && most[j] == e;
                    assert(table[j] == e);
                } else {
                    assert(table[table.len() - 1] == e);
                }
            }
            if table.contains(e) && text::begins(e.0, w) {
                let j = choose|j: int| 0 <= j < table.len() && table[j] == e;
                if j < most.len() {
                    assert(most[j] == e);
                    assert(most.contains(e));
                    assert(before.contains(e));
                    let k = choose|k: int| 0 <= k < before.len() && before[k] == e;
                    assert(all[k] == e);
                } else {
                    assert(all[all.len() - 1] == e);
                }
            }
        }
    }
}

/// A word that is none of a table's own may be the start of some: it means what they
/// mean if they all mean the same, and is ambiguous if they do not.
pub proof fn law_short_words(table: Seq<(Seq<char>, u64)>, w: Seq<char>, i: int, j: int)
    requires
        is_word(w),
        w.len() > 0,
        forall|k: int| 0 <= k < table.len() ==> (#[trigger] table[k]).0 != w,
        0 <= i < table.len(),
        0 <= j < table.len(),
        text::begins(table[i].0, w),
        text::begins(table[j].0, w),
    ensures
        table[i].1 != table[j].1 ==> filter_grammar::meaning(w, table) is Ambiguous,
        (forall|k: int|
            0 <= k < table.len() && text::begins((#[trigger] table[k]).0, w) ==> table[k].1
                == table[i].1) ==> filter_grammar::meaning(w, table) == Meaning::Found(table[i].1),
{
    lemma_word(w);
    lemma_not_exact(table, w);
    lemma_started(table, w);
    let m = filter_grammar::started(table, w);
    assert(table.contains(table[i]));
    assert(table.contains(table[j]));
    assert(m.contains(table[i]));
    assert(m.contains(table[j]));
    let a = choose|a: int| 0 <= a < m.len() && m[a] == table[i];
    let b = choose|b: int| 0 <= b < m.len() && m[b] == table[j];
    if table[i].1 != table[j].1 {
        if m[a].1 != m[0].1 {
            assert(0 <= a < m.len() && m[a].1 != m[0].1);
        } else {
            assert(0 <= b < m.len() && m[b].1 != m[0].1);
        }
    }
    if forall|k: int|
        0 <= k < table.len() && text::begins((#[trigger] table[k]).0, w) ==> table[k].1
            == table[i].1 {
        assert forall|c: int| 0 <= c < m.len() implies (#[trigger] m[c]).1 == table[i].1 by {
            assert(m.contains(m[c]));
            assert(table.contains(m[c]));
            let k = choose|k: int| 0 <= k < table.len() && table[k] == m[c];
            assert(text::begins(table[k].0, w));
        }
    }
}

proof fn lemma_not_exact(table: Seq<(Seq<char>, u64)>, w: Seq<char>)
    requires
        forall|k: int| 0 <= k < table.len() ==> (#[trigger] table[k]).0 != w,
    ensures
        filter_grammar::exact(table, w) is None,
    decreases table.len(),
{
    if table.len() > 0 {
        let rest = table.drop_first();
        assert forall|k: int| 0 <= k < rest.len() implies (#[trigger] rest[k]).0 != w by {
            assert(rest[k] == table[k + 1]);
        }
        lemma_not_exact(rest, w);
    }
}

} // verus!
