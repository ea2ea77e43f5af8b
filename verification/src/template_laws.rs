//! What templates stand for: what each placeholder and command writes, and in
//! which order a report lists the nodes.
use vstd::prelude::*;

use crate::export;
use crate::filter_texts;
use crate::model::State;
use crate::node::NodeKind;
use crate::sizes;
use crate::sort;
use crate::template;
use crate::template::{BlockSort, Down, SortField, TemplateView, Up};
use crate::template_grammar;
use crate::template_grammar::{Counts, Mistake, Pad, Scene};
use crate::text;
use crate::time;
use crate::NodeId;

verus! {

/// The names of placeholders, letter by letter.
proof fn spell_placeholders()
    ensures
        "pathfile"@ == seq!['p', 'a', 't', 'h', 'f', 'i', 'l', 'e'],
        "pathfile"@.len() == 8,
        "path"@ == seq!['p', 'a', 't', 'h'],
        "path"@.len() == 4,
        "file"@ == seq!['f', 'i', 'l', 'e'],
        "file"@.len() == 4,
        "fileext"@ == seq!['f', 'i', 'l', 'e', 'e', 'x', 't'],
        "fileext"@.len() == 7,
        "size"@ == seq!['s', 'i', 'z', 'e'],
        "size"@.len() == 4,
        "sizebytes"@ == seq!['s', 'i', 'z', 'e', 'b', 'y', 't', 'e', 's'],
        "sizebytes"@.len() == 9,
        "disksize"@ == seq!['d', 'i', 's', 'k', 's', 'i', 'z', 'e'],
        "disksize"@.len() == 8,
        "disksizebytes"@ == seq!['d', 'i', 's', 'k', 's', 'i', 'z', 'e', 'b', 'y', 't', 'e', 's'],
        "disksizebytes"@.len() == 13,
        "filemodifydate"@ == seq!['f', 'i', 'l', 'e', 'm', 'o', 'd', 'i', 'f', 'y', 'd', 'a', 't', 'e'],
        "filemodifydate"@.len() == 14,
        "age"@ == seq!['a', 'g', 'e'],
        "age"@.len() == 3,
        "isfile"@ == seq!['i', 's', 'f', 'i', 'l', 'e'],
        "isfile"@.len() == 6,
        "isfolder"@ == seq!['i', 's', 'f', 'o', 'l', 'd', 'e', 'r'],
        "isfolder"@.len() == 8,
        "iscontainer"@ == seq!['i', 's', 'c', 'o', 'n', 't', 'a', 'i', 'n', 'e', 'r'],
        "iscontainer"@.len() == 11,
        "nestinglevel"@ == seq!['n', 'e', 's', 't', 'i', 'n', 'g', 'l', 'e', 'v', 'e', 'l'],
        "nestinglevel"@.len() == 12,
        "counter"@ == seq!['c', 'o', 'u', 'n', 't', 'e', 'r'],
        "counter"@.len() == 7,
        "filecounter"@ == seq!['f', 'i', 'l', 'e', 'c', 'o', 'u', 'n', 't', 'e', 'r'],
        "filecounter"@.len() == 11,
        "foldercounter"@ == seq!['f', 'o', 'l', 'd', 'e', 'r', 'c', 'o', 'u', 'n', 't', 'e', 'r'],
        "foldercounter"@.len() == 13,
{
    reveal_strlit("pathfile");
    reveal_strlit("path");
    reveal_strlit("file");
    reveal_strlit("fileext");
    reveal_strlit("size");
    reveal_strlit("sizebytes");
    reveal_strlit("disksize");
    reveal_strlit("disksizebytes");
    reveal_strlit("filemodifydate");
    reveal_strlit("age");
    reveal_strlit("isfile");
    reveal_strlit("isfolder");
    reveal_strlit("iscontainer");
    reveal_strlit("nestinglevel");
    reveal_strlit("counter");
    reveal_strlit("filecounter");
    reveal_strlit("foldercounter");
    assert("pathfile"@ =~= seq!['p', 'a', 't', 'h', 'f', 'i', 'l', 'e']);
    assert("path"@ =~= seq!['p', 'a', 't', 'h']);
    assert("file"@ =~= seq!['f', 'i', 'l', 'e']);
    assert("fileext"@ =~= seq!['f', 'i', 'l', 'e', 'e', 'x', 't']);
    assert("size"@ =~= seq!['s', 'i', 'z', 'e']);
    assert("sizebytes"@ =~= seq!['s', 'i', 'z', 'e', 'b', 'y', 't', 'e', 's']);
    assert("disksize"@ =~= seq!['d', 'i', 's', 'k', 's', 'i', 'z', 'e']);
    assert("disksizebytes"@ =~= seq!['d', 'i', 's', 'k', 's', 'i', 'z', 'e', 'b', 'y', 't', 'e', 's']);
    assert("filemodifydate"@ =~= seq!['f', 'i', 'l', 'e', 'm', 'o', 'd', 'i', 'f', 'y', 'd', 'a', 't', 'e']);
    assert("age"@ =~= seq!['a', 'g', 'e']);
    assert("isfile"@ =~= seq!['i', 's', 'f', 'i', 'l', 'e']);
    assert("isfolder"@ =~= seq!['i', 's', 'f', 'o', 'l', 'd', 'e', 'r']);
    assert("iscontainer"@ =~= seq!['i', 's', 'c', 'o', 'n', 't', 'a', 'i', 'n', 'e', 'r']);
    assert("nestinglevel"@ =~= seq!['n', 'e', 's', 't', 'i', 'n', 'g', 'l', 'e', 'v', 'e', 'l']);
    assert("counter"@ =~= seq!['c', 'o', 'u', 'n', 't', 'e', 'r']);
    assert("filecounter"@ =~= seq!['f', 'i', 'l', 'e', 'c', 'o', 'u', 'n', 't', 'e', 'r']);
    assert("foldercounter"@ =~= seq!['f', 'o', 'l', 'd', 'e', 'r', 'c', 'o', 'u', 'n', 't', 'e', 'r']);
}

/// Each placeholder stands for the value that it is named after: `size` and
/// `sizebytes` for the logical size of the subtree, `disksize` and `disksizebytes`
/// for the allocated one, the `is` placeholders for `1` or `0`.
pub proof fn law_placeholders(sc: Scene)
    ensures
        ({
            let n = sc.state.nodes[sc.id as int];
            let file = n.kind == NodeKind::File || n.kind == NodeKind::Ads;
            let folder = n.kind == NodeKind::Directory;
            &&& template_grammar::value(sc, "pathfile"@) == Some(sc.state.path_to(sc.id))
            &&& sc.id != sc.root && n.parent is Some ==> template_grammar::value(sc, "path"@)
                == Some(sc.state.path_to(n.parent->0))
            &&& sc.id == sc.root ==> template_grammar::value(sc, "path"@) == Some(
                Seq::<char>::empty(),
            )
            &&& template_grammar::value(sc, "file"@) == Some(n.name@)
            &&& template_grammar::value(sc, "fileext"@) == Some(template_grammar::extension(n.name@))
            &&& template_grammar::value(sc, "size"@) == Some(
                sizes::human_text(n.agg_logical as nat),
            )
            &&& template_grammar::value(sc, "sizebytes"@) == Some(text::dec(n.agg_logical as nat))
            &&& template_grammar::value(sc, "disksize"@) == Some(
                sizes::human_text(n.agg_allocated as nat),
            )
            &&& template_grammar::value(sc, "disksizebytes"@) == Some(
                text::dec(n.agg_allocated as nat),
            )
            &&& template_grammar::value(sc, "filemodifydate"@) == Some(
                time::rfc3339(n.modified as int),
            )
            &&& template_grammar::value(sc, "age"@) == Some(sizes::age_text(sc.now, n.modified))
            &&& template_grammar::value(sc, "isfile"@) == Some(
                if file {
                    "1"@
                } else {
                    "0"@
                },
            )
            &&& template_grammar::value(sc, "isfolder"@) == Some(
                if folder {
                    "1"@
                } else {
                    "0"@
                },
            )
            &&& template_grammar::value(sc, "iscontainer"@) == Some(
                if file || folder {
                    "0"@
                } else {
                    "1"@
                },
            )
            &&& template_grammar::value(sc, "nestinglevel"@) == Some(text::dec(sc.depth))
            &&& template_grammar::value(sc, "counter"@) == Some(text::dec(sc.counts.element))
            &&& template_grammar::value(sc, "filecounter"@) == Some(text::dec(sc.counts.file))
            &&& template_grammar::value(sc, "foldercounter"@) == Some(text::dec(sc.counts.folder))
        }),
{
    lemma_distinct();
}

/// Names of placeholders that differ in their texts.
proof fn lemma_distinct()
    ensures
        "pathfile"@ != "path"@,
        "pathfile"@ != "file"@ && "path"@ != "file"@,
        "pathfile"@ != "fileext"@ && "path"@ != "fileext"@ && "file"@ != "fileext"@,
        "pathfile"@ != "size"@ && "path"@ != "size"@ && "file"@ != "size"@ && "fileext"@ != "size"@,
        "pathfile"@ != "sizebytes"@ && "path"@ != "sizebytes"@ && "file"@ != "sizebytes"@ && "fileext"@ != "sizebytes"@ && "size"@ != "sizebytes"@,
        "pathfile"@ != "disksize"@ && "path"@ != "disksize"@ && "file"@ != "disksize"@ && "fileext"@ != "disksize"@ && "size"@ != "disksize"@ && "sizebytes"@ != "disksize"@,
        "pathfile"@ != "disksizebytes"@ && "path"@ != "disksizebytes"@ && "file"@ != "disksizebytes"@ && "fileext"@ != "disksizebytes"@ && "size"@ != "disksizebytes"@ && "sizebytes"@ != "disksizebytes"@ && "disksize"@ != "disksizebytes"@,
        "pathfile"@ != "filemodifydate"@ && "path"@ != "filemodifydate"@ && "file"@ != "filemodifydate"@ && "fileext"@ != "filemodifydate"@ && "size"@ != "filemodifydate"@ && "sizebytes"@ != "filemodifydate"@ && "disksize"@ != "filemodifydate"@ && "disksizebytes"@ != "filemodifydate"@,
        "pathfile"@ != "age"@ && "path"@ != "age"@ && "file"@ != "age"@ && "fileext"@ != "age"@ && "size"@ != "age"@ && "sizebytes"@ != "age"@ && "disksize"@ != "age"@ && "disksizebytes"@ != "age"@ && "filemodifydate"@ != "age"@,
        "pathfile"@ != "isfile"@ && "path"@ != "isfile"@ && "file"@ != "isfile"@ && "fileext"@ != "isfile"@ && "size"@ != "isfile"@ && "sizebytes"@ != "isfile"@ && "disksize"@ != "isfile"@ && "disksizebytes"@ != "isfile"@ && "filemodifydate"@ != "isfile"@ && "age"@ != "isfile"@,
        "pathfile"@ != "isfolder"@ && "path"@ != "isfolder"@ && "file"@ != "isfolder"@ && "fileext"@ != "isfolder"@ && "size"@ != "isfolder"@ && "sizebytes"@ != "isfolder"@ && "disksize"@ != "isfolder"@ && "disksizebytes"@ != "isfolder"@ && "filemodifydate"@ != "isfolder"@ && "age"@ != "isfolder"@ && "isfile"@ != "isfolder"@,
        "pathfile"@ != "iscontainer"@ && "path"@ != "iscontainer"@ && "file"@ != "iscontainer"@ && "fileext"@ != "iscontainer"@ && "size"@ != "iscontainer"@ && "sizebytes"@ != "iscontainer"@ && "disksize"@ != "iscontainer"@ && "disksizebytes"@ != "iscontainer"@ && "filemodifydate"@ != "iscontainer"@ && "age"@ != "iscontainer"@ && "isfile"@ != "iscontainer"@ && "isfolder"@ != "iscontainer"@,
        "pathfile"@ != "nestinglevel"@ && "path"@ != "nestinglevel"@ && "file"@ != "nestinglevel"@ && "fileext"@ != "nestinglevel"@ && "size"@ != "nestinglevel"@ && "sizebytes"@ != "nestinglevel"@ && "disksize"@ != "nestinglevel"@ && "disksizebytes"@ != "nestinglevel"@ && "filemodifydate"@ != "nestinglevel"@ && "age"@ != "nestinglevel"@ && "isfile"@ != "nestinglevel"@ && "isfolder"@ != "nestinglevel"@ && "iscontainer"@ != "nestinglevel"@,
        "pathfile"@ != "counter"@ && "path"@ != "counter"@ && "file"@ != "counter"@ && "fileext"@ != "counter"@ && "size"@ != "counter"@ && "sizebytes"@ != "counter"@ && "disksize"@ != "counter"@ && "disksizebytes"@ != "counter"@ && "filemodifydate"@ != "counter"@ && "age"@ != "counter"@ && "isfile"@ != "counter"@ && "isfolder"@ != "counter"@ && "iscontainer"@ != "counter"@ && "nestinglevel"@ != "counter"@,
        "pathfile"@ != "filecounter"@ && "path"@ != "filecounter"@ && "file"@ != "filecounter"@ && "fileext"@ != "filecounter"@ && "size"@ != "filecounter"@ && "sizebytes"@ != "filecounter"@ && "disksize"@ != "filecounter"@ && "disksizebytes"@ != "filecounter"@ && "filemodifydate"@ != "filecounter"@ && "age"@ != "filecounter"@ && "isfile"@ != "filecounter"@ && "isfolder"@ != "filecounter"@ && "iscontainer"@ != "filecounter"@ && "nestinglevel"@ != "filecounter"@ && "counter"@ != "filecounter"@,
        "pathfile"@ != "foldercounter"@ && "path"@ != "foldercounter"@ && "file"@ != "foldercounter"@ && "fileext"@ != "foldercounter"@ && "size"@ != "foldercounter"@ && "sizebytes"@ != "foldercounter"@ && "disksize"@ != "foldercounter"@ && "disksizebytes"@ != "foldercounter"@ && "filemodifydate"@ != "foldercounter"@ && "age"@ != "foldercounter"@ && "isfile"@ != "foldercounter"@ && "isfolder"@ != "foldercounter"@ && "iscontainer"@ != "foldercounter"@ && "nestinglevel"@ != "foldercounter"@ && "counter"@ != "foldercounter"@ && "filecounter"@ != "foldercounter"@,
{
    spell_placeholders();
}

proof fn lemma_next(s: Seq<char>, i: nat, j: nat, to: nat, word: Seq<char>)
    requires
        i <= j < to <= s.len(),
        word.len() > 0,
        template_grammar::stands_at(s, j, to, word),
        forall|k: int| i <= k < j ==> #[trigger] s[k] != word[0],
    ensures
        template_grammar::next_at(s, i, to, word) == Some(j),
    decreases j - i,
{
    if i < j {
        assert(s[i as int] != word[0]);
        if template_grammar::stands_at(s, i, to, word) {
            assert(s.subrange(i as int, (i + word.len()) as int)[0] == s[i as int]);
        }
        lemma_next(s, i + 1, j, to, word);
    }
}

/// A placeholder of a word alone in a section.
proof fn lemma_placeholder(sc: Scene, s: Seq<char>, i: nat, w: Seq<char>, pad: Option<Pad>)
    requires
        filter_texts::is_word(w),
        i + w.len() + 4 == s.len(),
        s[i as int] == '<',
        s[i as int + 1] == '%',
        s.subrange(i as int + 2, s.len() - 2) == w,
        s[s.len() - 2] == '%',
        s[s.len() - 1] == '>',
        template_grammar::value(sc, w) is Some,
    ensures
        template_grammar::rendered(sc, s, i, s.len(), pad, 0) == Ok::<Seq<char>, Mistake>(
            template_grammar::padded(template_grammar::value(sc, w)->0, pad),
        ),
{
    let to = s.len();
    let j = (s.len() - 2) as nat;
    assert(s.subrange(i as int, i as int + 2) =~= seq!['<', '%']);
    assert(s.subrange(j as int, j as int + 2) =~= seq!['%', '>']);
    assert forall|k: int| i + 2 <= k < j implies #[trigger] s[k] != '%' by {
        assert(s.subrange(i as int + 2, s.len() - 2)[k - i - 2] == s[k]);
    }
    lemma_next(s, i + 2, j, to, seq!['%', '>']);
    assert(template_grammar::cut(s, i + 2, j) == w);
    assert(template_grammar::rendered(sc, s, j + 2, to, None, 0) == Ok::<Seq<char>, Mistake>(
        Seq::empty(),
    ));
    let v = template_grammar::padded(template_grammar::value(sc, w)->0, pad);
    assert(v + Seq::<char>::empty() =~= v);
}

/// A section that is a placeholder is written as the value of the placeholder.
pub proof fn law_placeholder_sections(sc: Scene, w: Seq<char>)
    requires
        filter_texts::is_word(w),
        template_grammar::value(sc, w) is Some,
    ensures
        template_grammar::section(sc, seq!['<', '%'] + w + seq!['%', '>']) == Ok::<
            Seq<char>,
            Mistake,
        >(template_grammar::value(sc, w)->0),
{
    let s = seq!['<', '%'] + w + seq!['%', '>'];
    assert(s.subrange(2, s.len() - 2) =~= w);
    lemma_placeholder(sc, s, 0, w, None);
}

/// A value under a pad of a width is at least that wide and otherwise as it is:
/// `leftpad` puts the missing spaces before it and `rightpad` behind it.
pub proof fn law_pads(v: Seq<char>, p: Pad)
    ensures
        ({
            let r = template_grammar::padded(v, Some(p));
            &&& v.len() >= p.width ==> r == v
            &&& v.len() < p.width ==> {
                &&& r.len() == p.width
                &&& p.right ==> r.take(v.len() as int) == v && forall|i: int|
                    v.len() <= i < p.width ==> #[trigger] r[i] == ' '
                &&& !p.right ==> r.skip(p.width - v.len()) == v && forall|i: int|
                    0 <= i < p.width - v.len() ==> #[trigger] r[i] == ' '
            }
        }),
{
    let r = template_grammar::padded(v, Some(p));
    if v.len() < p.width {
        if p.right {
            assert(r.take(v.len() as int) =~= v);
        } else {
            assert(r.skip(p.width - v.len()) =~= v);
        }
    }
}

proof fn lemma_command_at_start(s: Seq<char>, body: Seq<char>, rest: Seq<char>)
    requires
        s == seq!['{'] + body + seq!['}'] + rest,
        body.len() > 0,
        body[0] != '{',
        !text::is_space(body[0]),
        !text::is_space(body.last()),
        !body.contains('}'),
    ensures
        s[0] == '{',
        s.len() > 1,
        s[1] != '{',
        !template_grammar::stands_at(s, 0, s.len(), seq!['<', '%']),
        template_grammar::next_at(s, 1, s.len(), seq!['}']) == Some((1 + body.len()) as nat),
        text::trim(template_grammar::cut(s, 1, (1 + body.len()) as nat)) == body,
{
    let j = (1 + body.len()) as nat;
    assert(s[1] == body[0]);
    if template_grammar::stands_at(s, 0, s.len(), seq!['<', '%']) {
        assert(s.subrange(0, 2)[0] == s[0]);
    }
    assert forall|k: int| 1 <= k < j implies #[trigger] s[k] != '}' by {
        assert(s[k] == body[k - 1]);
        assert(body.contains(body[k - 1]));
    }
    assert(s[j as int] == '}');
    assert(s.subrange(j as int, j as int + 1) =~= seq!['}']);
    lemma_next(s, 1, j, s.len(), seq!['}']);
    assert(s.subrange(1, j as int) =~= body);
    filter_texts::lemma_trimmed(body);
}

proof fn lemma_word_end(w: Seq<char>, rest: Seq<char>)
    requires
        forall|i: int| 0 <= i < w.len() ==> !text::is_space(#[trigger] w[i]),
        rest.len() > 0 ==> text::is_space(rest[0]),
    ensures
        template_grammar::word_len(w + rest) == w.len(),
    decreases w.len(),
{
    if w.len() == 0 {
        assert(w + rest =~= rest);
    } else {
        assert((w + rest)[0] == w[0]);
        assert((w + rest).drop_first() =~= w.drop_first() + rest);
        assert forall|i: int| 0 <= i < w.drop_first().len() implies !text::is_space(
            #[trigger] w.drop_first()[i],
        ) by {
            assert(w.drop_first()[i] == w[i + 1]);
        }
        lemma_word_end(w.drop_first(), rest);
    }
}

/// The words of a text of two words.
proof fn lemma_words(head: Seq<char>, arg: Seq<char>)
    requires
        head.len() > 0,
        forall|i: int| 0 <= i < head.len() ==> !text::is_space(#[trigger] head[i]),
        arg.len() > 0,
        forall|i: int| 0 <= i < arg.len() ==> !text::is_space(#[trigger] arg[i]),
    ensures
        template_grammar::first_word(head + seq![' '] + arg) == head,
        template_grammar::second_word(head + seq![' '] + arg) == Some(arg),
{
    let s = head + seq![' '] + arg;
    let rest = seq![' '] + arg;
    assert(s =~= head + rest);
    lemma_word_end(head, rest);
    assert(s[0] == head[0]);
    assert(text::trim_start(s) == s);
    assert(s.take(head.len() as int) =~= head);
    assert(s.skip(head.len() as int) =~= rest);
    assert(rest[0] == ' ');
    assert(rest.drop_first() =~= arg);
    assert(text::trim_start(arg) == arg);
    assert(text::trim_start(rest) == text::trim_start(rest.drop_first()));
    lemma_word_end(arg, Seq::empty());
    assert(arg + Seq::<char>::empty() =~= arg);
    assert(arg.take(arg.len() as int) =~= arg);
}

/// The only word of a text.
proof fn lemma_one_word(head: Seq<char>)
    requires
        head.len() > 0,
        forall|i: int| 0 <= i < head.len() ==> !text::is_space(#[trigger] head[i]),
    ensures
        template_grammar::first_word(head) == head,
{
    lemma_word_end(head, Seq::empty());
    assert(head + Seq::<char>::empty() =~= head);
    assert(text::trim_start(head) == head);
    assert(head.take(head.len() as int) =~= head);
}

proof fn lemma_width(n: nat)
    requires
        n <= usize::MAX,
    ensures
        template_grammar::whole_number(text::dec(n)) == Some(n),
        forall|i: int| 0 <= i < text::dec(n).len() ==> !text::is_space(#[trigger] text::dec(n)[i]),
        text::dec(n).len() > 0,
        !text::dec(n).contains('}'),
{
    filter_texts::lemma_decimal(n);
    assert(text::dec(n)[0] != '+');
}

/// The names of commands, letter by letter.
proof fn spell_commands()
    ensures
        "&br"@ == seq!['&', 'b', 'r'],
        "&tab"@ == seq!['&', 't', 'a', 'b'],
        "leftpad"@ == seq!['l', 'e', 'f', 't', 'p', 'a', 'd'],
        "rightpad"@ == seq!['r', 'i', 'g', 'h', 't', 'p', 'a', 'd'],
        "nest"@ == seq!['n', 'e', 's', 't'],
{
    reveal_strlit("&br");
    reveal_strlit("&tab");
    reveal_strlit("leftpad");
    reveal_strlit("rightpad");
    reveal_strlit("nest");
    assert("&br"@ =~= seq!['&', 'b', 'r']);
    assert("&tab"@ =~= seq!['&', 't', 'a', 'b']);
    assert("leftpad"@ =~= seq!['l', 'e', 'f', 't', 'p', 'a', 'd']);
    assert("rightpad"@ =~= seq!['r', 'i', 'g', 'h', 't', 'p', 'a', 'd']);
    assert("nest"@ =~= seq!['n', 'e', 's', 't']);
}

/// `{leftpad n}` before a placeholder brings its value to `n` characters with
/// spaces before it, and `{rightpad n}` with spaces behind it.
pub proof fn law_pad_commands(sc: Scene, right: bool, n: nat, w: Seq<char>)
    requires
        n <= 4096,
        filter_texts::is_word(w),
        template_grammar::value(sc, w) is Some,
    ensures
        ({
            let head = if right {
                "rightpad"@
            } else {
                "leftpad"@
            };
            let v = template_grammar::value(sc, w)->0;
            let fill = Seq::new(
                if v.len() < n {
                    (n - v.len()) as nat
                } else {
                    0
                },
                |i: int| ' ',
            );
            template_grammar::section(
                sc,
                seq!['{'] + (head + seq![' '] + text::dec(n)) + seq!['}'] + (seq!['<', '%'] + w + seq![
                    '%',
                    '>',
                ]),
            ) == Ok::<Seq<char>, Mistake>(
                if right {
                    v + fill
                } else {
                    fill + v
                },
            )
        }),
{
    let head = if right {
        "rightpad"@
    } else {
        "leftpad"@
    };
    let v = template_grammar::value(sc, w)->0;
    let arg = text::dec(n);
    let body = head + seq![' '] + arg;
    let rest = seq!['<', '%'] + w + seq!['%', '>'];
    let s = seq!['{'] + body + seq!['}'] + rest;
    spell_commands();
    lemma_width(n);
    lemma_words(head, arg);
    assert(body[0] == head[0]);
    assert(body.last() == arg.last());
    assert forall|i: int| 0 <= i < body.len() implies #[trigger] body[i] != '}' by {
        if i > head.len() {
            assert(body[i] == arg[i - head.len() - 1]);
            assert(arg.contains(arg[i - head.len() - 1]));
        } else if i < head.len() {
            assert(body[i] == head[i]);
        }
    }
    lemma_command_at_start(s, body, rest);
    let k = body.len() + 2;
    let pad = Pad { right, width: n, start: 0, end: k };
    assert(s.subrange(k as int + 2, s.len() - 2) =~= w);
    lemma_placeholder(sc, s, k, w, Some(pad));
    assert(template_grammar::pad_width(Some(arg)) == Ok::<nat, Seq<char>>(n));
    assert(template_grammar::rendered(sc, s, 0, s.len(), None, 0) == template_grammar::rendered(
        sc,
        s,
        k,
        s.len(),
        Some(pad),
        0,
    ));
    let fill = Seq::new(
        if v.len() < n {
            (n - v.len()) as nat
        } else {
            0
        },
        |i: int| ' ',
    );
    let shown = template_grammar::padded(v, Some(pad));
    if right {
        assert(shown =~= v + fill);
    } else {
        assert(shown =~= fill + v);
    }
}

/// `{nest n}` writes `n` spaces for every level below the root of the report.
pub proof fn law_nest_command(sc: Scene, n: nat)
    requires
        n <= 64,
    ensures
        template_grammar::section(
            sc,
            seq!['{'] + ("nest"@ + seq![' '] + text::dec(n)) + seq!['}'] + Seq::<char>::empty(),
        ) == Ok::<Seq<char>, Mistake>(Seq::new(sc.depth * n, |i: int| ' ')),
{
    let head = "nest"@;
    let arg = text::dec(n);
    let body = head + seq![' '] + arg;
    let s = seq!['{'] + body + seq!['}'] + Seq::<char>::empty();
    spell_commands();
    lemma_width(n);
    lemma_words(head, arg);
    assert(body[0] == head[0]);
    assert(body.last() == arg.last());
    assert forall|i: int| 0 <= i < body.len() implies #[trigger] body[i] != '}' by {
        if i > head.len() {
            assert(body[i] == arg[i - head.len() - 1]);
            assert(arg.contains(arg[i - head.len() - 1]));
        } else if i < head.len() {
            assert(body[i] == head[i]);
        }
    }
    lemma_command_at_start(s, body, Seq::empty());
    let k = body.len() + 2;
    assert(template_grammar::nest_width(Some(arg)) == Ok::<nat, Seq<char>>(n));
    assert(template_grammar::rendered(sc, s, k, s.len(), None, 0) == Ok::<Seq<char>, Mistake>(
        Seq::empty(),
    ));
    let t = Seq::new(sc.depth * n, |i: int| ' ');
    assert(template_grammar::spaces(sc.depth * n) =~= t);
    assert(t + Seq::<char>::empty() =~= t);
}

/// `{&br}` writes a line break and `{&tab}` a tab, whatever the node.
pub proof fn law_break_commands(sc: Scene)
    ensures
        template_grammar::section(
            sc,
            seq!['{'] + "&br"@ + seq!['}'] + Seq::<char>::empty(),
        ) == Ok::<Seq<char>, Mistake>(seq!['\n']),
        template_grammar::section(
            sc,
            seq!['{'] + "&tab"@ + seq!['}'] + Seq::<char>::empty(),
        ) == Ok::<Seq<char>, Mistake>(seq!['\t']),
{
    spell_commands();
    let a = seq!['{'] + "&br"@ + seq!['}'] + Seq::<char>::empty();
    lemma_one_word("&br"@);
    lemma_command_at_start(a, "&br"@, Seq::empty());
    assert(template_grammar::rendered(sc, a, 5, a.len(), None, 0) == Ok::<Seq<char>, Mistake>(
        Seq::empty(),
    ));
    assert(seq!['\n'] + Seq::<char>::empty() =~= seq!['\n']);
    let b = seq!['{'] + "&tab"@ + seq!['}'] + Seq::<char>::empty();
    lemma_one_word("&tab"@);
    lemma_command_at_start(b, "&tab"@, Seq::empty());
    assert(template_grammar::rendered(sc, b, 6, b.len(), None, 0) == Ok::<Seq<char>, Mistake>(
        Seq::empty(),
    ));
    assert(seq!['\t'] + Seq::<char>::empty() =~= seq!['\t']);
}

proof fn lemma_plain_from(sc: Scene, s: Seq<char>, i: nat)
    requires
        i <= s.len(),
        !s.contains('<'),
        !s.contains('{'),
    ensures
        template_grammar::rendered(sc, s, i, s.len(), None, 0) == Ok::<Seq<char>, Mistake>(
            s.skip(i as int),
        ),
    decreases s.len() - i,
{
    if i < s.len() {
        assert(s.contains(s[i as int]));
        if template_grammar::stands_at(s, i, s.len(), seq!['<', '%']) {
            assert(s.subrange(i as int, i as int + 2)[0] == s[i as int]);
        }
        lemma_plain_from(sc, s, i + 1);
        assert(seq![s[i as int]] + s.skip(i as int + 1) =~= s.skip(i as int));
    } else {
        assert(s.skip(i as int) =~= Seq::<char>::empty());
    }
}

/// Text without placeholders and commands is written as it stands.
pub proof fn law_plain_text(sc: Scene, s: Seq<char>)
    requires
        !s.contains('<'),
        !s.contains('{'),
    ensures
        template_grammar::section(sc, s) == Ok::<Seq<char>, Mistake>(s),
{
    lemma_plain_from(sc, s, 0);
    assert(s.skip(0) =~= s);
}

/// The counters of a report count every node, files and streams among the files
/// and folders among the folders.
pub proof fn law_counters(c: Counts, kind: NodeKind)
    ensures
        template::counted(c, kind).element == c.element + 1,
        kind == NodeKind::File || kind == NodeKind::Ads ==> template::counted(c, kind).file == c.file
            + 1 && template::counted(c, kind).folder == c.folder,
        kind == NodeKind::Directory ==> template::counted(c, kind).folder == c.folder + 1
            && template::counted(c, kind).file == c.file,
        kind != NodeKind::File && kind != NodeKind::Ads && kind != NodeKind::Directory ==> {
            &&& template::counted(c, kind).file == c.file
            &&& template::counted(c, kind).folder == c.folder
        },
{
}

/// How two siblings stand to each other in a report.
proof fn lemma_siblings(s: State, t: TemplateView, p: NodeId, i: int, j: int)
    requires
        s.links(),
        s.live(p),
        0 <= i < j < template::by_template(s, t)(p).len(),
    ensures
        ({
            let a = template::rank_of(s, template::by_template(s, t)(p)[i], t.block_sort, t.sort);
            let b = template::rank_of(s, template::by_template(s, t)(p)[j], t.block_sort, t.sort);
            a.block < b.block || (a.block == b.block && (if t.descending {
                template::fine_le(b, a)
            } else {
                template::fine_le(a, b)
            }))
        }),
{
    assert(s.node_ok(p));
    let ks = s.kids[p];
    let keys = template::ranks_of(s, ks, t.block_sort, t.sort);
    if t.descending {
        let order = sort::ranks::<Down>(keys);
        sort::lemma_ranks::<Down>(keys);
        let before = sort::no_later::<Down>(keys);
        assert(before(order[i], order[j]));
    } else {
        let order = sort::ranks::<Up>(keys);
        sort::lemma_ranks::<Up>(keys);
        let before = sort::no_later::<Up>(keys);
        assert(before(order[i], order[j]));
    }
}

/// Within the groups of a report siblings are sorted by what is asked for: `Size`
/// by the logical and `DiskSize` by the allocated size of the subtree, `ModifyDate`
/// by the time of modification, upwards or, where that is asked for, downwards.
/// Folders come before files, or files before folders, or neither.
pub proof fn law_report_order(s: State, t: TemplateView, p: NodeId, i: int, j: int)
    requires
        s.links(),
        s.live(p),
        0 <= i < j < template::by_template(s, t)(p).len(),
    ensures
        ({
            let a = s.nodes[template::by_template(s, t)(p)[i] as int];
            let b = s.nodes[template::by_template(s, t)(p)[j] as int];
            let a_file = a.kind == NodeKind::File || a.kind == NodeKind::Ads;
            let b_file = b.kind == NodeKind::File || b.kind == NodeKind::Ads;
            let together = t.block_sort == BlockSort::Ungrouped || a_file == b_file;
            &&& t.block_sort == BlockSort::FoldersFirst ==> !(a_file && !b_file)
            &&& t.block_sort == BlockSort::FilesFirst ==> !(!a_file && b_file)
            &&& together && t.sort == SortField::Size && !t.descending ==> a.agg_logical
                <= b.agg_logical
            &&& together && t.sort == SortField::Size && t.descending ==> a.agg_logical
                >= b.agg_logical
            &&& together && t.sort == SortField::DiskSize && !t.descending ==> a.agg_allocated
                <= b.agg_allocated
            &&& together && t.sort == SortField::DiskSize && t.descending ==> a.agg_allocated
                >= b.agg_allocated
            &&& together && t.sort == SortField::ModifyDate && a.modified >= 0 && b.modified >= 0
                && !t.descending ==> a.modified <= b.modified
            &&& together && t.sort == SortField::ModifyDate && a.modified >= 0 && b.modified >= 0
                && t.descending ==> a.modified >= b.modified
            &&& together && t.sort == SortField::Name && !t.descending ==> template::text_le(
                text::lower(a.name@),
                text::lower(b.name@),
            )
            &&& together && t.sort == SortField::Name && t.descending ==> template::text_le(
                text::lower(b.name@),
                text::lower(a.name@),
            )
            &&& together && t.sort == SortField::Extension && !t.descending ==> template::text_le(
                text::lower(template_grammar::extension(a.name@)),
                text::lower(template_grammar::extension(b.name@)),
            )
        }),
{
    lemma_siblings(s, t, p, i, j);
}

proof fn lemma_last_dot(s: Seq<char>, k: int)
    requires
        0 <= k < s.len(),
        s[k] == '.',
        forall|i: int| k < i < s.len() ==> #[trigger] s[i] != '.',
    ensures
        template_grammar::last_dot(s) == k,
    decreases s.len(),
{
    if k < s.len() - 1 {
        assert(s.last() == s[s.len() - 1]);
        lemma_last_dot(s.drop_last(), k);
    }
}

proof fn lemma_no_slash(s: Seq<char>)
    requires
        !s.contains('/'),
    ensures
        template_grammar::after_slash(s) == s,
    decreases s.len(),
{
    if s.len() > 0 {
        assert(s.contains(s.last()));
        assert forall|i: int| 0 <= i < s.drop_last().len() implies s.drop_last()[i] != '/' by {
            assert(s.contains(s[i]));
        }
        lemma_no_slash(s.drop_last());
        assert(s.drop_last().push(s.last()) =~= s);
    }
}

/// The extension of a name is what follows its last dot, unless that dot is its
/// first character.
pub proof fn law_extensions(stem: Seq<char>, ext: Seq<char>)
    requires
        stem.len() > 0,
        !stem.contains('/'),
        !ext.contains('/'),
        !ext.contains('.'),
        stem + seq!['.'] + ext != seq!['.', '.'],
    ensures
        template_grammar::extension(stem + seq!['.'] + ext) == ext,
        template_grammar::extension(seq!['.'] + ext) == Seq::<char>::empty(),
{
    let s = stem + seq!['.'] + ext;
    let k = stem.len() as int;
    assert(s[k] == '.');
    assert forall|i: int| 0 <= i < s.len() implies #[trigger] s[i] != '/' && (i > k ==> s[i]
        != '.') by {
        if i < k {
            assert(stem.contains(stem[i]));
        } else if i > k {
            assert(s[i] == ext[i - k - 1]);
            assert(ext.contains(ext[i - k - 1]));
        }
    }
    lemma_no_slash(s);
    lemma_last_dot(s, k);
    assert(s.skip(k + 1) =~= ext);
    let h = seq!['.'] + ext;
    assert forall|i: int| 0 <= i < h.len() implies #[trigger] h[i] != '/' && (i > 0 ==> h[i]
        != '.') by {
        if i > 0 {
            assert(h[i] == ext[i - 1]);
            assert(ext.contains(ext[i - 1]));
        }
    }
    lemma_no_slash(h);
    lemma_last_dot(h, 0);
}

/// Texts are in the order of their first characters that differ, and the shorter
/// one comes first where one starts the other.
pub proof fn law_text_order(common: Seq<char>, a: Seq<char>, b: Seq<char>)
    ensures
        a.len() > 0 && b.len() > 0 && a[0] < b[0] ==> template::text_le(common + a, common + b)
            && !template::text_le(common + b, common + a),
        template::text_le(common, common + b),
        b.len() > 0 ==> !template::text_le(common + b, common),
    decreases common.len(),
{
    if common.len() == 0 {
        assert(common + a =~= a);
        assert(common + b =~= b);
        assert(common =~= Seq::<char>::empty());
    } else {
        let rest = common.drop_first();
        assert((common + a).drop_first() =~= rest + a);
        assert((common + b).drop_first() =~= rest + b);
        assert((common + a)[0] == common[0]);
        assert((common + b)[0] == common[0]);
        law_text_order(rest, a, b);
    }
}

/// A report starts with three lines that name the template, the root and the
/// filter; the header follows, then one detail for every node and the footer with
/// the counts of all of them.
pub proof fn law_report_parts(
    s: State,
    root: NodeId,
    t: TemplateView,
    filter: Option<Seq<char>>,
    now: crate::FileTime,
)
    ensures
        ({
            let (bytes, mistake) = template::report(s, root, t, filter, now);
            let none = Counts { element: 0, file: 0, folder: 0 };
            let start = Scene { state: s, now, counts: none, root, id: root, depth: 0 };
            let w = template::details(
                s,
                root,
                now,
                t.detail,
                none,
                crate::visit::visits(s, template::by_template(s, t), root),
            );
            let end = Scene { state: s, now, counts: w.counts, root, id: root, depth: 0 };
            let top = vstd::utf8::encode_utf8(
                "# RustySpaceSniffer export (template: "@ + t.name + ")\n# view: "@ + s.path_to(root)
                    + "\n# filter: "@ + (if filter is Some {
                    filter->0
                } else {
                    "none"@
                }) + "\n"@,
            );
            mistake is None ==> {
                &&& template_grammar::section(start, t.header) is Ok
                &&& template_grammar::section(end, t.footer) is Ok
                &&& bytes == top + vstd::utf8::encode_utf8(
                    template_grammar::section(start, t.header)->Ok_0,
                ) + w.bytes + vstd::utf8::encode_utf8(
                    template_grammar::section(end, t.footer)->Ok_0,
                )
            }
        }),
{
}

proof fn lemma_plain_range(sc: Scene, s: Seq<char>, i: nat, to: nat, level: nat)
    requires
        i <= to <= s.len(),
        forall|k: int| i <= k < to ==> #[trigger] s[k] != '<' && s[k] != '{',
    ensures
        template_grammar::rendered(sc, s, i, to, None, level) == Ok::<Seq<char>, Mistake>(
            s.subrange(i as int, to as int),
        ),
    decreases to - i,
{
    if i < to {
        if template_grammar::stands_at(s, i, to, seq!['<', '%']) {
            assert(s.subrange(i as int, i as int + 2)[0] == s[i as int]);
        }
        lemma_plain_range(sc, s, i + 1, to, level);
        assert(seq![s[i as int]] + s.subrange(i as int + 1, to as int) =~= s.subrange(
            i as int,
            to as int,
        ));
    } else {
        assert(s.subrange(i as int, to as int) =~= Seq::<char>::empty());
    }
}

proof fn lemma_parts_skip(
    s: Seq<char>,
    k: nat,
    stop: nat,
    to: nat,
    other: Option<(nat, nat)>,
    opening: std::ops::Range<usize>,
)
    requires
        k <= stop <= to <= s.len(),
        forall|i: int| k <= i < stop ==> #[trigger] s[i] != '{',
    ensures
        template_grammar::parts_from(s, k, to, 0, other, opening) == template_grammar::parts_from(
            s,
            stop,
            to,
            0,
            other,
            opening,
        ),
    decreases stop - k,
{
    if k < stop {
        assert(s[k as int] != '{');
        lemma_parts_skip(s, k + 1, stop, to, other, opening);
    }
}

/// Where a brace with a word in it stands.
proof fn lemma_brace(s: Seq<char>, k: nat, word: Seq<char>)
    requires
        filter_texts::is_word(word),
        word.len() > 0,
        k + word.len() + 2 <= s.len(),
        s[k as int] == '{',
        s.subrange(k as int + 1, (k + 1 + word.len()) as int) == word,
        s[k as int + 1 + word.len()] == '}',
    ensures
        s[k as int + 1] != '{',
        template_grammar::next_at(s, k + 1, s.len(), seq!['}']) == Some(k + 1 + word.len()),
        template_grammar::first_word(template_grammar::cut(s, k + 1, k + 1 + word.len())) == word,
{
    let j = k + 1 + word.len();
    let sub = s.subrange(k as int + 1, j as int);
    assert forall|i: int| k + 1 <= i < j implies #[trigger] s[i] != '}' && s[i] != '{' by {
        assert(sub[i - k - 1] == s[i]);
        assert(word[i - k - 1] == s[i]);
    }
    assert(s.subrange(j as int, j as int + 1) =~= seq!['}']);
    lemma_next(s, k + 1, j, s.len(), seq!['}']);
    assert forall|i: int| 0 <= i < word.len() implies !text::is_space(#[trigger] word[i]) by {}
    lemma_one_word(word);
}

/// The words of conditions, letter by letter.
proof fn spell_conditions()
    ensures
        "if"@ == seq!['i', 'f'],
        "if"@.len() == 2,
        "else"@ == seq!['e', 'l', 's', 'e'],
        "else"@.len() == 4,
        "endif"@ == seq!['e', 'n', 'd', 'i', 'f'],
        "endif"@.len() == 5,
        "isfile"@ == seq!['i', 's', 'f', 'i', 'l', 'e'],
        "isfile"@.len() == 6,
        "isfolder"@ == seq!['i', 's', 'f', 'o', 'l', 'd', 'e', 'r'],
        "isfolder"@.len() == 8,
        "iscontainer"@ == seq!['i', 's', 'c', 'o', 'n', 't', 'a', 'i', 'n', 'e', 'r'],
        "iscontainer"@.len() == 11,
        "if"@ != "&br"@ && "if"@ != "&tab"@ && "if"@ != "leftpad"@ && "if"@ != "rightpad"@ && "if"@
            != "nest"@ && "if"@ != "script"@,
{
    reveal_strlit("if");
    reveal_strlit("else");
    reveal_strlit("endif");
    reveal_strlit("isfile");
    reveal_strlit("isfolder");
    reveal_strlit("iscontainer");
    reveal_strlit("script");
    assert("if"@ =~= seq!['i', 'f']);
    assert("else"@ =~= seq!['e', 'l', 's', 'e']);
    assert("endif"@ =~= seq!['e', 'n', 'd', 'i', 'f']);
    assert("isfile"@ =~= seq!['i', 's', 'f', 'i', 'l', 'e']);
    assert("isfolder"@ =~= seq!['i', 's', 'f', 'o', 'l', 'd', 'e', 'r']);
    assert("iscontainer"@ =~= seq!['i', 's', 'c', 'o', 'n', 't', 'a', 'i', 'n', 'e', 'r']);
    spell_commands();
    assert("&br"@[0] == '&');
    assert("&tab"@[0] == '&');
    assert("leftpad"@[0] == 'l');
    assert("rightpad"@[0] == 'r');
    assert("nest"@[0] == 'n');
    assert("script"@[0] == 's');
    assert("if"@[0] == 'i');
}

/// A block writes what stands before its `{else}` if the condition holds of the
/// node and what stands behind it if not; a `!` turns the condition round. `isfile`
/// holds of files and streams, `isfolder` of folders, `iscontainer` of the rest.
pub proof fn law_conditionals(
    sc: Scene,
    word: Seq<char>,
    negated: bool,
    yes: Seq<char>,
    no: Seq<char>,
)
    requires
        word == "isfile"@ || word == "isfolder"@ || word == "iscontainer"@,
        !yes.contains('<') && !yes.contains('{'),
        !no.contains('<') && !no.contains('{'),
    ensures
        ({
            let kind = sc.state.nodes[sc.id as int].kind;
            let file = kind == NodeKind::File || kind == NodeKind::Ads;
            let folder = kind == NodeKind::Directory;
            let so = if word == "isfile"@ {
                file
            } else if word == "isfolder"@ {
                folder
            } else {
                !file && !folder
            };
            let mark = if negated {
                seq!['!']
            } else {
                Seq::<char>::empty()
            };
            template_grammar::section(
                sc,
                seq!['{'] + (seq!['i', 'f', ' '] + mark + word) + seq!['}'] + (yes + seq![
                    '{',
                    'e',
                    'l',
                    's',
                    'e',
                    '}',
                ] + no + seq!['{', 'e', 'n', 'd', 'i', 'f', '}']),
            ) == Ok::<Seq<char>, Mistake>(
                if so != negated {
                    yes
                } else {
                    no
                },
            )
        }),
{
    let mark = if negated {
        seq!['!']
    } else {
        Seq::<char>::empty()
    };
    let body = seq!['i', 'f', ' '] + mark + word;
    let rest = yes + seq!['{', 'e', 'l', 's', 'e', '}'] + no + seq![
        '{',
        'e',
        'n',
        'd',
        'i',
        'f',
        '}',
    ];
    let s = seq!['{'] + body + seq!['}'] + rest;
    let j = (1 + body.len()) as nat;
    lemma_so(sc.state.nodes[sc.id as int].kind, word);
    lemma_block_head(s, word, negated, rest);
    lemma_block_parts(s, j, yes, no);
    lemma_block_texts(sc, s, j, yes, no);
    let k1 = (j + 1 + yes.len()) as nat;
    let b1 = (k1 + 6) as nat;
    let k2 = (b1 + no.len()) as nat;
    let parts = template_grammar::Parts { other: Some((k1, b1)), end: (k2, s.len()) };
    lemma_block(sc, s, j, word, negated, parts, yes, no);
}

/// What the words of conditions hold of.
proof fn lemma_so(kind: NodeKind, word: Seq<char>)
    requires
        word == "isfile"@ || word == "isfolder"@ || word == "iscontainer"@,
    ensures
        ({
            let file = kind == NodeKind::File || kind == NodeKind::Ads;
            let folder = kind == NodeKind::Directory;
            template_grammar::is_so(kind, word) == Some(
                if word == "isfile"@ {
                    file
                } else if word == "isfolder"@ {
                    folder
                } else {
                    !file && !folder
                },
            )
        }),
        filter_texts::is_word(word),
        word.len() > 0,
{
    spell_conditions();
}

/// How a block starts.
proof fn lemma_block_head(s: Seq<char>, word: Seq<char>, negated: bool, rest: Seq<char>)
    requires
        filter_texts::is_word(word),
        word.len() > 0,
        s == seq!['{'] + (seq!['i', 'f', ' '] + (if negated {
            seq!['!']
        } else {
            Seq::<char>::empty()
        }) + word) + seq!['}'] + rest,
    ensures
        ({
            let n: int = if negated {
                1
            } else {
                0
            };
            let j = (4 + n + word.len()) as nat;
            &&& s.len() == j + 1 + rest.len()
            &&& s[0] == '{'
            &&& s[1] != '{'
            &&& !template_grammar::stands_at(s, 0, s.len(), seq!['<', '%'])
            &&& template_grammar::next_at(s, 1, s.len(), seq!['}']) == Some(j)
            &&& template_grammar::first_word(text::trim(template_grammar::cut(s, 1, j))) == "if"@
            &&& template_grammar::condition(s, 0, j) == (word, negated)
            &&& s.skip(j as int + 1) == rest
        }),
        "if"@ != "&br"@ && "if"@ != "&tab"@ && "if"@ != "leftpad"@ && "if"@ != "rightpad"@ && "if"@
            != "nest"@ && "if"@ != "script"@,
{
    let mark = if negated {
        seq!['!']
    } else {
        Seq::<char>::empty()
    };
    let name = mark + word;
    let body = seq!['i', 'f', ' '] + mark + word;
    spell_conditions();
    assert(body =~= "if"@ + seq![' '] + name);
    assert forall|i: int| 0 <= i < name.len() implies !text::is_space(#[trigger] name[i]) by {
        if i >= mark.len() {
            assert(name[i] == word[i - mark.len()]);
        }
    }
    assert forall|i: int| 0 <= i < body.len() implies #[trigger] body[i] != '}' by {
        if i >= 3 + mark.len() {
            assert(body[i] == word[i - 3 - mark.len()]);
        }
    }
    assert(body.last() == word.last());
    lemma_words("if"@, name);
    lemma_command_at_start(s, body, rest);
    lemma_condition_name(s, word, negated, rest);
    assert(s.skip(body.len() as int + 2) =~= rest);
}

/// Where the braces of a block stand, and what they hold.
#[verifier::spinoff_prover]
proof fn lemma_block_places(s: Seq<char>, j: nat, yes: Seq<char>, no: Seq<char>)
    requires
        j < s.len(),
        s.skip(j as int + 1) == yes + seq!['{', 'e', 'l', 's', 'e', '}'] + no + seq![
            '{',
            'e',
            'n',
            'd',
            'i',
            'f',
            '}',
        ],
        !yes.contains('{'),
        !no.contains('{'),
    ensures
        ({
            let k1 = j + 1 + yes.len();
            let b1 = k1 + 6;
            let k2 = b1 + no.len();
            &&& s.len() == k2 + 7
            &&& forall|i: int| j + 1 <= i < k1 ==> #[trigger] s[i] != '{'
            &&& forall|i: int| b1 <= i < k2 ==> #[trigger] s[i] != '{'
            &&& s[k1 as int] == '{'
            &&& s[k1 as int + 5] == '}'
            &&& s[k2 as int] == '{'
            &&& s[k2 as int + 6] == '}'
            &&& s.subrange(k1 as int + 1, k1 as int + 5) == "else"@
            &&& s.subrange(k2 as int + 1, k2 as int + 6) == "endif"@
        }),
{
    let rest = s.skip(j as int + 1);
    let k1 = (j + 1 + yes.len()) as nat;
    let b1 = (k1 + 6) as nat;
    let k2 = (b1 + no.len()) as nat;
    spell_conditions();
    assert(rest.len() == s.len() - j - 1);
    assert forall|i: int| j + 1 <= i < s.len() implies #[trigger] s[i] == rest[i - j - 1] by {}
    assert forall|i: int| j + 1 <= i < k1 implies #[trigger] s[i] != '{' by {
        assert(s[i] == yes[i - j - 1]);
        assert(yes.contains(yes[i - j - 1]));
    }
    assert forall|i: int| b1 <= i < k2 implies #[trigger] s[i] != '{' by {
        assert(s[i] == no[i - b1]);
        assert(no.contains(no[i - b1]));
    }
    assert(s.subrange(k1 as int + 1, k1 as int + 5) =~= "else"@);
    assert(s.subrange(k2 as int + 1, k2 as int + 6) =~= "endif"@);
}

/// Where the parts of a block lie.
#[verifier::spinoff_prover]
#[verifier::rlimit(60)]
proof fn lemma_block_parts(s: Seq<char>, j: nat, yes: Seq<char>, no: Seq<char>)
    requires
        j < s.len(),
        s.skip(j as int + 1) == yes + seq!['{', 'e', 'l', 's', 'e', '}'] + no + seq![
            '{',
            'e',
            'n',
            'd',
            'i',
            'f',
            '}',
        ],
        !yes.contains('{'),
        !no.contains('{'),
    ensures
        ({
            let k1 = (j + 1 + yes.len()) as nat;
            let k2 = (k1 + 6 + no.len()) as nat;
            &&& s.len() == k2 + 7
            &&& template_grammar::parts_from(
                s,
                j + 1,
                s.len(),
                0,
                None,
                template_grammar::span(s, 0, j + 1),
            ) == Ok::<template_grammar::Parts, Mistake>(
                template_grammar::Parts { other: Some((k1, (k1 + 6) as nat)), end: (k2, s.len()) },
            )
        }),
{
    let here = template_grammar::span(s, 0, j + 1);
    let k1 = (j + 1 + yes.len()) as nat;
    let b1 = (k1 + 6) as nat;
    let k2 = (b1 + no.len()) as nat;
    lemma_block_places(s, j, yes, no);
    spell_conditions();
    lemma_brace(s, k1, "else"@);
    lemma_brace(s, k2, "endif"@);
    lemma_parts_skip(s, j + 1, k1, s.len(), None, here);
    lemma_parts_skip(s, b1, k2, s.len(), Some((k1, b1)), here);
    assert("else"@ != "if"@ && "else"@ != "endif"@ && "endif"@ != "if"@);
}

/// What the parts of a block without placeholders and commands are written as.
proof fn lemma_block_texts(sc: Scene, s: Seq<char>, j: nat, yes: Seq<char>, no: Seq<char>)
    requires
        j < s.len(),
        s.skip(j as int + 1) == yes + seq!['{', 'e', 'l', 's', 'e', '}'] + no + seq![
            '{',
            'e',
            'n',
            'd',
            'i',
            'f',
            '}',
        ],
        !yes.contains('{') && !yes.contains('<'),
        !no.contains('{') && !no.contains('<'),
    ensures
        ({
            let k1 = (j + 1 + yes.len()) as nat;
            let k2 = (k1 + 6 + no.len()) as nat;
            &&& template_grammar::rendered(sc, s, j + 1, k1, None, 1) == Ok::<Seq<char>, Mistake>(yes)
            &&& template_grammar::rendered(sc, s, (k1 + 6) as nat, k2, None, 1) == Ok::<
                Seq<char>,
                Mistake,
            >(no)
        }),
{
    let rest = s.skip(j as int + 1);
    let k1 = (j + 1 + yes.len()) as nat;
    let b1 = (k1 + 6) as nat;
    let k2 = (b1 + no.len()) as nat;
    assert(rest.len() == s.len() - j - 1);
    assert forall|i: int| j + 1 <= i < s.len() implies #[trigger] s[i] == rest[i - j - 1] by {}
    assert forall|i: int| j + 1 <= i < k1 implies #[trigger] s[i] != '<' && s[i] != '{' by {
        assert(s[i] == yes[i - j - 1]);
        assert(yes.contains(yes[i - j - 1]));
    }
    assert forall|i: int| b1 <= i < k2 implies #[trigger] s[i] != '<' && s[i] != '{' by {
        assert(s[i] == no[i - b1]);
        assert(no.contains(no[i - b1]));
    }
    lemma_plain_range(sc, s, j + 1, k1, 1);
    lemma_plain_range(sc, s, b1, k2, 1);
    assert(s.subrange(j as int + 1, k1 as int) =~= yes);
    assert(s.subrange(b1 as int, k2 as int) =~= no);
}

/// A section that is a block is one of its parts.
#[verifier::spinoff_prover]
#[verifier::rlimit(60)]
proof fn lemma_block(
    sc: Scene,
    s: Seq<char>,
    j: nat,
    word: Seq<char>,
    negated: bool,
    parts: template_grammar::Parts,
    yes: Seq<char>,
    no: Seq<char>,
)
    requires
        0 < j < s.len(),
        s.len() > 1,
        s[0] == '{',
        s[1] != '{',
        !template_grammar::stands_at(s, 0, s.len(), seq!['<', '%']),
        template_grammar::next_at(s, 1, s.len(), seq!['}']) == Some(j),
        template_grammar::first_word(text::trim(template_grammar::cut(s, 1, j))) == "if"@,
        "if"@ != "&br"@ && "if"@ != "&tab"@ && "if"@ != "leftpad"@ && "if"@ != "rightpad"@ && "if"@
            != "nest"@ && "if"@ != "script"@,
        template_grammar::condition(s, 0, j) == (word, negated),
        template_grammar::is_so(sc.state.nodes[sc.id as int].kind, word) is Some,
        template_grammar::parts_from(
            s,
            j + 1,
            s.len(),
            0,
            None,
            template_grammar::span(s, 0, j + 1),
        ) == Ok::<template_grammar::Parts, Mistake>(parts),
        parts.other is Some,
        parts.end.1 == s.len(),
        j + 1 <= (parts.other->0).0 <= parts.end.0 <= s.len(),
        template_grammar::rendered(sc, s, j + 1, (parts.other->0).0, None, 1) == Ok::<
            Seq<char>,
            Mistake,
        >(yes),
        template_grammar::rendered(sc, s, (parts.other->0).1, parts.end.0, None, 1) == Ok::<
            Seq<char>,
            Mistake,
        >(no),
    ensures
        template_grammar::section(sc, s) == Ok::<Seq<char>, Mistake>(
            if template_grammar::is_so(sc.state.nodes[sc.id as int].kind, word)->0 != negated {
                yes
            } else {
                no
            },
        ),
{
    assert(template_grammar::rendered(sc, s, s.len(), s.len(), None, 0) == Ok::<
        Seq<char>,
        Mistake,
    >(Seq::empty()));
    assert(yes + Seq::<char>::empty() =~= yes);
    assert(no + Seq::<char>::empty() =~= no);
}

proof fn lemma_condition_name(s: Seq<char>, word: Seq<char>, negated: bool, rest: Seq<char>)
    requires
        filter_texts::is_word(word),
        word.len() > 0,
        s == seq!['{'] + (seq!['i', 'f', ' '] + (if negated {
            seq!['!']
        } else {
            Seq::<char>::empty()
        }) + word) + seq!['}'] + rest,
    ensures
        ({
            let n: int = if negated {
                1
            } else {
                0
            };
            template_grammar::condition(s, 0, (4 + n + word.len()) as nat) == (word, negated)
        }),
{
    let mark = if negated {
        seq!['!']
    } else {
        Seq::<char>::empty()
    };
    let j = (4 + mark.len() + word.len()) as nat;
    assert(s.subrange(0, 3) =~= seq!['{', 'i', 'f']);
    let inner = s.subrange(3, j as int);
    let name = mark + word;
    assert(inner =~= seq![' '] + name);
    assert(inner.drop_first() =~= name);
    assert(text::trim_start(inner) == text::trim_start(inner.drop_first()));
    assert(name.last() == word.last());
    filter_texts::lemma_trimmed(name);
    filter_texts::lemma_trimmed(word);
    if negated {
        assert(name.drop_first() =~= word);
    } else {
        assert(name =~= word);
        assert(word[0] != '!');
    }
}

/// A placeholder somewhere in a section writes its value before the rest.
proof fn lemma_placeholder_step(sc: Scene, s: Seq<char>, i: nat, w: Seq<char>)
    requires
        filter_texts::is_word(w),
        i + w.len() + 4 <= s.len(),
        s.subrange(i as int, (i + w.len() + 4) as int) == seq!['<', '%'] + w + seq!['%', '>'],
        template_grammar::value(sc, w) is Some,
    ensures
        template_grammar::rendered(sc, s, i, s.len(), None, 0) == template_grammar::before(
            template_grammar::value(sc, w)->0,
            template_grammar::rendered(sc, s, (i + w.len() + 4) as nat, s.len(), None, 0),
        ),
{
    let to = s.len();
    let j = (i + 2 + w.len()) as nat;
    let part = seq!['<', '%'] + w + seq!['%', '>'];
    let sub = s.subrange(i as int, (i + w.len() + 4) as int);
    assert forall|k: int| 0 <= k < part.len() implies s[i + k] == #[trigger] part[k] by {
        assert(sub[k] == s[i + k]);
    }
    assert(s[i as int] == part[0] && s[i as int + 1] == part[1]);
    assert(s[j as int] == part[w.len() as int + 2] && s[j as int + 1] == part[w.len() as int + 3]);
    assert(s.subrange(i as int, i as int + 2) =~= seq!['<', '%']);
    assert(s.subrange(j as int, j as int + 2) =~= seq!['%', '>']);
    assert forall|k: int| i + 2 <= k < j implies #[trigger] s[k] != '%' by {
        assert(s[k] == part[k - i]);
        assert(part[k - i] == w[k - i - 2]);
    }
    lemma_next(s, i + 2, j, to, seq!['%', '>']);
    assert(template_grammar::cut(s, i + 2, j) =~= w) by {
        assert forall|k: int| 0 <= k < w.len() implies s.subrange(i as int + 2, j as int)[k] == w[k] by {
            assert(s[i + 2 + k] == part[k + 2]);
        }
    }
}

/// Where a break or tab stands.
proof fn lemma_break_place(s: Seq<char>, i: nat, word: Seq<char>)
    requires
        word == seq!['&', 't', 'a', 'b'] || word == seq!['&', 'b', 'r'],
        i + word.len() + 2 <= s.len(),
        s.subrange(i as int, (i + word.len() + 2) as int) == seq!['{'] + word + seq!['}'],
    ensures
        s[i as int] == '{',
        s[i as int + 1] != '{',
        !template_grammar::stands_at(s, i, s.len(), seq!['<', '%']),
        template_grammar::next_at(s, i + 1, s.len(), seq!['}']) == Some(
            (i + 1 + word.len()) as nat,
        ),
        template_grammar::first_word(
            text::trim(template_grammar::cut(s, i + 1, (i + 1 + word.len()) as nat)),
        ) == word,
{
    let to = s.len();
    let j = (i + 1 + word.len()) as nat;
    let part = seq!['{'] + word + seq!['}'];
    let sub = s.subrange(i as int, (i + word.len() + 2) as int);
    assert forall|k: int| 0 <= k < part.len() implies s[i + k] == #[trigger] part[k] by {
        assert(sub[k] == s[i + k]);
    }
    assert(s[i as int] == part[0] && s[i as int + 1] == part[1] && s[j as int] == part[
        word.len() as int + 1
    ]);
    if template_grammar::stands_at(s, i, to, seq!['<', '%']) {
        assert(s.subrange(i as int, i as int + 2)[0] == s[i as int]);
    }
    assert forall|k: int| i + 1 <= k < j implies #[trigger] s[k] != '}' by {
        assert(s[k] == part[k - i]);
        assert(part[k - i] == word[k - i - 1]);
    }
    assert(s.subrange(j as int, j as int + 1) =~= seq!['}']);
    lemma_next(s, i + 1, j, to, seq!['}']);
    assert(template_grammar::cut(s, i + 1, j) =~= word) by {
        assert forall|k: int| 0 <= k < word.len() implies s.subrange(i as int + 1, j as int)[k]
            == word[k] by {
            assert(s[i + 1 + k] == part[k + 1]);
        }
    }
    filter_texts::lemma_trimmed(word);
    lemma_one_word(word);
}

/// What a section is written as from a place on.
#[verifier::opaque]
spec fn from(sc: Scene, s: Seq<char>, i: nat) -> Result<Seq<char>, Mistake> {
    template_grammar::rendered(sc, s, i, s.len(), None, 0)
}

/// A break or tab somewhere in a section is written before the rest.
proof fn lemma_break_step(sc: Scene, s: Seq<char>, i: nat, word: Seq<char>)
    requires
        word == seq!['&', 't', 'a', 'b'] || word == seq!['&', 'b', 'r'],
        i + word.len() + 2 <= s.len(),
        s.subrange(i as int, (i + word.len() + 2) as int) == seq!['{'] + word + seq!['}'],
    ensures
        from(sc, s, i) == template_grammar::before(
            if word == "&tab"@ {
                seq!['\t']
            } else {
                seq!['\n']
            },
            from(sc, s, (i + word.len() + 2) as nat),
        ),
        word == "&tab"@ <==> word == seq!['&', 't', 'a', 'b'],
{
    reveal(from);
    lemma_break_place(s, i, word);
    spell_commands();
    assert("&br"@[1] == 'b');
    assert("&tab"@[1] == 't');
}

proof fn lemma_value_step(sc: Scene, s: Seq<char>, i: nat, w: Seq<char>)
    requires
        filter_texts::is_word(w),
        i + w.len() + 4 <= s.len(),
        s.subrange(i as int, (i + w.len() + 4) as int) == seq!['<', '%'] + w + seq!['%', '>'],
        template_grammar::value(sc, w) is Some,
    ensures
        from(sc, s, i) == template_grammar::before(
            template_grammar::value(sc, w)->0,
            from(sc, s, (i + w.len() + 4) as nat),
        ),
{
    lemma_placeholder_step(sc, s, i, w);
    reveal(from);
}

proof fn lemma_ends(sc: Scene, s: Seq<char>)
    ensures
        from(sc, s, s.len()) == Ok::<Seq<char>, Mistake>(Seq::empty()),
        from(sc, s, 0) == template_grammar::section(sc, s),
{
    reveal(from);
}

/// The parts of the detail of the plain list.
proof fn lemma_plain_detail(s: Seq<char>)
    requires
        s == template::plain_view().detail,
    ensures
        s.len() == 59,
        s.subrange(0, 12) == seq!['<', '%'] + "pathfile"@ + seq!['%', '>'],
        s.subrange(12, 18) == seq!['{'] + seq!['&', 't', 'a', 'b'] + seq!['}'],
        s.subrange(18, 31) == seq!['<', '%'] + "sizebytes"@ + seq!['%', '>'],
        s.subrange(31, 37) == seq!['{'] + seq!['&', 't', 'a', 'b'] + seq!['}'],
        s.subrange(37, 54) == seq!['<', '%'] + "disksizebytes"@ + seq!['%', '>'],
        s.subrange(54, 59) == seq!['{'] + seq!['&', 'b', 'r'] + seq!['}'],
        filter_texts::is_word("pathfile"@) && "pathfile"@.len() == 8,
        filter_texts::is_word("sizebytes"@) && "sizebytes"@.len() == 9,
        filter_texts::is_word("disksizebytes"@) && "disksizebytes"@.len() == 13,
{
    reveal_strlit("<%pathfile%>{&tab}<%sizebytes%>{&tab}<%disksizebytes%>{&br}");
    spell_placeholders();
    assert(s.subrange(0, 12) =~= seq!['<', '%'] + "pathfile"@ + seq!['%', '>']);
    assert(s.subrange(12, 18) =~= seq!['{'] + seq!['&', 't', 'a', 'b'] + seq!['}']);
    assert(s.subrange(18, 31) =~= seq!['<', '%'] + "sizebytes"@ + seq!['%', '>']);
    assert(s.subrange(31, 37) =~= seq!['{'] + seq!['&', 't', 'a', 'b'] + seq!['}']);
    assert(s.subrange(37, 54) =~= seq!['<', '%'] + "disksizebytes"@ + seq!['%', '>']);
    assert(s.subrange(54, 59) =~= seq!['{'] + seq!['&', 'b', 'r'] + seq!['}']);
}

/// The plain list has one line for each node: its path, its logical size in bytes
/// and its allocated size in bytes, with tabs between them.
pub proof fn law_plain_list(sc: Scene)
    ensures
        ({
            let n = sc.state.nodes[sc.id as int];
            let t = template::plain_view();
            &&& t.name == "Plain list"@
            &&& t.block_sort == BlockSort::Ungrouped
            &&& t.footer.len() == 0
            &&& template_grammar::section(sc, t.detail) == Ok::<Seq<char>, Mistake>(
                sc.state.path_to(sc.id) + (seq!['\t'] + (text::dec(n.agg_logical as nat) + (seq![
                    '\t',
                ] + (text::dec(n.agg_allocated as nat) + (seq!['\n'] + Seq::<char>::empty()))))),
            )
        }),
{
    let s = template::plain_view().detail;
    law_placeholders(sc);
    lemma_plain_detail(s);
    lemma_ends(sc, s);
    lemma_value_step(sc, s, 0, "pathfile"@);
    lemma_break_step(sc, s, 12, seq!['&', 't', 'a', 'b']);
    lemma_value_step(sc, s, 18, "sizebytes"@);
    lemma_break_step(sc, s, 31, seq!['&', 't', 'a', 'b']);
    lemma_value_step(sc, s, 37, "disksizebytes"@);
    lemma_break_step(sc, s, 54, seq!['&', 'b', 'r']);
    assert(seq!['&', 'b', 'r'].len() == 3 && seq!['&', 't', 'a', 'b'].len() == 4);
}

} // verus!
