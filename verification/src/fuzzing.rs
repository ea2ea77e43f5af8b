//! Entry points for fuzzing: arbitrary bytes in, no panic whatever they are.
use vstd::prelude::*;
use vstd::string::*;

use crate::node::{NodeKind, NodeParams};
use crate::snapshot::Snapshot;
use crate::template;
use crate::template::{BlockSort, ExportTemplate, SortField, TemplateContext, TemplateView};
use crate::text;
use crate::tree::Tree;
use crate::NodeId;

verus! {

/// Decodes arbitrary bytes as a snapshot.
pub fn rssnap_parse(data: &[u8]) {
    let _ = Snapshot::decode(data);
}

/// What `String::from_utf8_lossy` makes of bytes.
pub uninterp spec fn lossy_text(data: Seq<u8>) -> Seq<char>;

/// `String::from_utf8_lossy`: the text that the bytes encode, with replacement
/// characters for what is not UTF-8. Of bytes that are UTF-8 it is the text.
#[verifier::external_body]
fn lossy(data: &[u8]) -> (s: String)
    ensures
        s@ == lossy_text(data@),
        vstd::utf8::valid_utf8(data@) ==> s@ == vstd::utf8::decode_utf8(data@),
{
    String::from_utf8_lossy(data).into_owned()
}

/// The sum of bytes.
pub open spec fn byte_sum(data: Seq<u8>) -> nat
    decreases data.len(),
{
    if data.len() == 0 {
        0
    } else {
        byte_sum(data.drop_last()) + data.last() as nat
    }
}

/// The part of a text before its first line break.
pub open spec fn first_line(s: Seq<char>) -> Seq<char> {
    s.take(text::find(s, '\n') as int)
}

/// The part of a text after its first line break.
pub open spec fn other_lines(s: Seq<char>) -> Seq<char> {
    let n = text::find(s, '\n') as int;
    if n < s.len() {
        s.skip(n + 1)
    } else {
        Seq::empty()
    }
}

/// The template that a text and a number stand for: the sections are the first
/// line, the second and the rest, and the number gives the order.
pub open spec fn template_of(s: Seq<char>, sum: int) -> TemplateView {
    TemplateView {
        name: "fuzz"@,
        header: first_line(s),
        detail: first_line(other_lines(s)),
        footer: other_lines(other_lines(s)),
        block_sort: if sum % 3 == 0 {
            BlockSort::FoldersFirst
        } else if sum % 3 == 1 {
            BlockSort::FilesFirst
        } else {
            BlockSort::Ungrouped
        },
        sort: if (sum / 3) % 5 == 0 {
            SortField::Name
        } else if (sum / 3) % 5 == 1 {
            SortField::Extension
        } else if (sum / 3) % 5 == 2 {
            SortField::Size
        } else if (sum / 3) % 5 == 3 {
            SortField::DiskSize
        } else {
            SortField::ModifyDate
        },
        descending: sum % 2 == 0,
    }
}

/// The first line of a text and the rest.
fn split_line(s: &Vec<char>) -> (r: (Vec<char>, Vec<char>))
    ensures
        r.0@ == first_line(s@),
        r.1@ == other_lines(s@),
{
    proof {
        assert(s@.skip(0) =~= s@);
    }
    let n: usize = text::find_from(s, 0, '\n');
    let head = text::part(s, 0, n);
    proof {
        assert(head@ =~= s@.take(n as int));
    }
    if n < s.len() {
        let rest = text::part(s, n + 1, s.len());
        proof {
            assert(rest@ =~= s@.skip(n + 1));
        }
        (head, rest)
    } else {
        let none: Vec<char> = Vec::new();
        proof {
            assert(none@ =~= Seq::empty());
        }
        (head, none)
    }
}

/// Makes a template of a text and a number.
pub fn fuzz_template(input: &str, sum: u32) -> (t: ExportTemplate)
    ensures
        t@ == template_of(input@, sum as int),
{
    let chars = text::chars_of(input);
    let (header, rest) = split_line(&chars);
    let (detail, footer) = split_line(&rest);
    ExportTemplate {
        name: "fuzz".to_owned(),
        header: text::text_of(&header),
        detail: text::text_of(&detail),
        footer: text::text_of(&footer),
        block_sort: match sum % 3 {
            0 => BlockSort::FoldersFirst,
            1 => BlockSort::FilesFirst,
            _ => BlockSort::Ungrouped,
        },
        sort: match (sum / 3) % 5 {
            0 => SortField::Name,
            1 => SortField::Extension,
            2 => SortField::Size,
            3 => SortField::DiskSize,
            _ => SortField::ModifyDate,
        },
        descending: sum % 2 == 0,
    }
}

/// The sum of bytes, reduced to what a number can hold of it.
pub fn checksum(data: &[u8]) -> (sum: u32)
    ensures
        sum == byte_sum(data@) % 0x1_0000_0000,
{
    let mut sum: u32 = 0;
    for i in 0..data.len()
        invariant
            sum == byte_sum(data@.take(i as int)) % 0x1_0000_0000,
    {
        proof {
            assert(data@.take(i + 1).drop_last() =~= data@.take(i as int));
            assert(data@.take(i + 1).last() == data@[i as int]);
        }
        sum = sum.wrapping_add(data[i] as u32);
    }
    proof {
        assert(data@.take(data@.len() as int) =~= data@);
    }
    sum
}

/// A small tree to render.
fn small_tree() -> (r: (Tree, NodeId))
    ensures
        r.0@.wf(),
        r.0@.live(r.1),
{
    let mut tree = Tree::with_root(NodeParams::named("root", NodeKind::Directory));
    let root: NodeId = 0;
    let dir: NodeId = tree.add_child(
        root,
        NodeParams::named("sub dir", NodeKind::Directory).sizes(0, 4096),
    );
    let _ = tree.add_child(
        dir,
        NodeParams::named("data-ユニコード.bin", NodeKind::File).sizes(2048, 4096),
    );
    let _ = tree.add_child(
        root,
        NodeParams::named("big.exe", NodeKind::File).sizes(1_000_000, 1_048_576),
    );
    proof {
        tree@.lemma_counts();
        assert(tree@.live(0));
    }
    (tree, root)
}

/// Renders a small tree with a template made of arbitrary bytes.
pub fn template_render(data: &[u8]) {
    let input = lossy(data);
    let sum: u32 = checksum(data);
    let template = fuzz_template(input.as_str(), sum);
    let (tree, root) = small_tree();
    let context = TemplateContext { filter: None, now: 133_444_736_000_000_000 };
    let mut out: Vec<u8> = Vec::new();
    let _ = template::render_template(&tree, root, &template, &context, &mut out);
}

/// The first line of a text becomes the header of a template, the second the part for
/// each element, and the rest the footer.
pub proof fn law_three_parts(a: Seq<char>, b: Seq<char>, c: Seq<char>, sum: int)
    requires
        !a.contains('\n'),
        !b.contains('\n'),
    ensures
        ({
            let t = template_of(a + seq!['\n'] + (b + seq!['\n'] + c), sum);
            &&& t.header == a
            &&& t.detail == b
            &&& t.footer == c
        }),
{
    lemma_lines(a, b + seq!['\n'] + c);
    lemma_lines(b, c);
}

proof fn lemma_lines(a: Seq<char>, rest: Seq<char>)
    requires
        !a.contains('\n'),
    ensures
        first_line(a + seq!['\n'] + rest) == a,
        other_lines(a + seq!['\n'] + rest) == rest,
{
    let s = a + seq!['\n'] + rest;
    text::lemma_find(s, '\n');
    assert(s[a.len() as int] == '\n');
    assert forall|i: int| 0 <= i < a.len() implies s[i] != '\n' by {
        assert(s[i] == a[i]);
        assert(a.contains(a[i]));
    }
    assert(text::find(s, '\n') == a.len());
    assert(s.take(a.len() as int) =~= a);
    assert(s.skip(a.len() as int + 1) =~= rest);
}

} // verus!
