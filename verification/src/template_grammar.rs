//! The language of report templates: what a section's text stands for.
//!
//! Text stands for itself. `<%name%>` stands for a value of the node at hand.
//! Commands stand in braces: `{&br}` and `{&tab}` for a line break and a tab,
//! `{leftpad N}` and `{rightpad N}` to bring the next value to a width,
//! `{nest N}` for spaces by depth, and `{if name}`, `{else}`, `{endif}` for text
//! that depends on the kind of the node. `{{` stands for a brace. `{script ..}`
//! is known and refused.
use vstd::prelude::*;

use crate::export_error::TemplateError;
use crate::model::State;
use crate::node::NodeKind;
use crate::sizes;
use crate::text;
use crate::time;
use crate::{FileTime, NodeId};

verus! {

/// The largest width of `{leftpad N}` and `{rightpad N}`.
pub const MAX_PAD_WIDTH: usize = 4096;

/// The largest number of spaces for each level of `{nest N}`.
pub const MAX_NEST_WIDTH: usize = 64;

/// The largest depth of `{if}` blocks in each other.
pub const MAX_IF_DEPTH: usize = 32;

/// A mistake in a template in mathematical terms.
#[verifier::ext_equal]
#[allow(inconsistent_fields)]
pub enum Mistake {
    UnknownPlaceholder { name: Seq<char>, span: std::ops::Range<usize> },
    UnterminatedPlaceholder { span: std::ops::Range<usize> },
    UnknownCommand { name: Seq<char>, span: std::ops::Range<usize> },
    InvalidCommandArg { command: Seq<char>, reason: Seq<char>, span: std::ops::Range<usize> },
    UnsupportedCommand { name: Seq<char>, span: std::ops::Range<usize> },
    UnterminatedCommand { span: std::ops::Range<usize> },
    UnmatchedConditional { command: Seq<char>, span: std::ops::Range<usize> },
    MissingEndif { span: std::ops::Range<usize> },
    ConditionalNestingTooDeep,
    InvalidCondition { reason: Seq<char>, span: std::ops::Range<usize> },
    DanglingPad { command: Seq<char>, span: std::ops::Range<usize> },
}

/// A mistake without the section that holds it.
pub open spec fn mistake(e: TemplateError) -> Mistake {
    match e {
        TemplateError::UnknownPlaceholder { name, span, .. } => Mistake::UnknownPlaceholder {
            name: name@,
            span,
        },
        TemplateError::UnterminatedPlaceholder { span, .. } => Mistake::UnterminatedPlaceholder {
            span,
        },
        TemplateError::UnknownCommand { name, span, .. } => Mistake::UnknownCommand {
            name: name@,
            span,
        },
        TemplateError::InvalidCommandArg { command, reason, span, .. } => Mistake::InvalidCommandArg {
            command: command@,
            reason: reason@,
            span,
        },
        TemplateError::UnsupportedCommand { name, span, .. } => Mistake::UnsupportedCommand {
            name: name@,
            span,
        },
        TemplateError::UnterminatedCommand { span, .. } => Mistake::UnterminatedCommand { span },
        TemplateError::UnmatchedConditional { command, span, .. } => Mistake::UnmatchedConditional {
            command: command@,
            span,
        },
        TemplateError::MissingEndif { span, .. } => Mistake::MissingEndif { span },
        TemplateError::ConditionalNestingTooDeep { .. } => Mistake::ConditionalNestingTooDeep,
        TemplateError::InvalidCondition { reason, span, .. } => Mistake::InvalidCondition {
            reason: reason@,
            span,
        },
        TemplateError::DanglingPad { command, span, .. } => Mistake::DanglingPad {
            command: command@,
            span,
        },
    }
}

/// The section that a mistake is in.
pub open spec fn section_of(e: TemplateError) -> Seq<char> {
    match e {
        TemplateError::UnknownPlaceholder { section, .. } => section@,
        TemplateError::UnterminatedPlaceholder { section, .. } => section@,
        TemplateError::UnknownCommand { section, .. } => section@,
        TemplateError::InvalidCommandArg { section, .. } => section@,
        TemplateError::UnsupportedCommand { section, .. } => section@,
        TemplateError::UnterminatedCommand { section, .. } => section@,
        TemplateError::UnmatchedConditional { section, .. } => section@,
        TemplateError::MissingEndif { section, .. } => section@,
        TemplateError::ConditionalNestingTooDeep { section } => section@,
        TemplateError::InvalidCondition { section, .. } => section@,
        TemplateError::DanglingPad { section, .. } => section@,
    }
}

/// Running counts of a report.
pub struct Counts {
    pub element: nat,
    pub file: nat,
    pub folder: nat,
}

/// What the placeholders of a section look at.
pub struct Scene {
    pub state: State,
    pub now: FileTime,
    pub counts: Counts,
    /// The node that the report starts at.
    pub root: NodeId,
    pub id: NodeId,
    pub depth: nat,
}

pub open spec fn file_kind(kind: NodeKind) -> bool {
    kind == NodeKind::File || kind == NodeKind::Ads
}

pub open spec fn folder_kind(kind: NodeKind) -> bool {
    kind == NodeKind::Directory
}

pub open spec fn container_kind(kind: NodeKind) -> bool {
    kind == NodeKind::FreeSpace || kind == NodeKind::UnknownSpace || kind == NodeKind::Unaccessible
}

/// A truth value as a digit.
pub open spec fn digit_of(b: bool) -> Seq<char> {
    if b {
        "1"@
    } else {
        "0"@
    }
}

/// The last part of a path that is a name: what follows the last slash, leaving
/// out empty parts and dots.
pub open spec fn file_part(path: Seq<char>) -> Seq<char>
    decreases path.len(),
{
    let part = after_slash(path);
    if part.len() >= path.len() {
        part
    } else if part.len() == 0 || part == seq!['.'] {
        file_part(path.take(path.len() - part.len() - 1))
    } else {
        part
    }
}

/// What follows the last slash of a path.
pub open spec fn after_slash(path: Seq<char>) -> Seq<char>
    decreases path.len(),
{
    if path.len() == 0 || path.last() == '/' {
        Seq::empty()
    } else {
        after_slash(path.drop_last()).push(path.last())
    }
}

/// The place of the last dot of a text, or -1.
pub open spec fn last_dot(s: Seq<char>) -> int
    decreases s.len(),
{
    if s.len() == 0 {
        -1
    } else if s.last() == '.' {
        s.len() - 1
    } else {
        last_dot(s.drop_last())
    }
}

/// The extension of a name without its dot. A dot at the start makes none.
pub open spec fn extension(name: Seq<char>) -> Seq<char> {
    let f = file_part(name);
    if f != seq!['.', '.'] && last_dot(f) > 0 {
        f.skip(last_dot(f) + 1)
    } else {
        Seq::empty()
    }
}

/// The value of a placeholder.
pub open spec fn value(sc: Scene, name: Seq<char>) -> Option<Seq<char>> {
    let n = sc.state.nodes[sc.id as int];
    if name == "pathfile"@ {
        Some(sc.state.path_to(sc.id))
    } else if name == "path"@ {
        Some(
            match n.parent {
                Some(p) => if sc.id == sc.root {
                    Seq::empty()
                } else {
                    sc.state.path_to(p)
                },
                None => Seq::empty(),
            },
        )
    } else if name == "file"@ {
        Some(n.name@)
    } else if name == "fileext"@ {
        Some(extension(n.name@))
    } else if name == "size"@ {
        Some(sizes::human_text(n.agg_logical as nat))
    } else if name == "sizebytes"@ {
        Some(text::dec(n.agg_logical as nat))
    } else if name == "disksize"@ {
        Some(sizes::human_text(n.agg_allocated as nat))
    } else if name == "disksizebytes"@ {
        Some(text::dec(n.agg_allocated as nat))
    } else if name == "filemodifydate"@ {
        Some(time::rfc3339(n.modified as int))
    } else if name == "age"@ {
        Some(sizes::age_text(sc.now, n.modified))
    } else if name == "isfile"@ {
        Some(digit_of(file_kind(n.kind)))
    } else if name == "isfolder"@ {
        Some(digit_of(folder_kind(n.kind)))
    } else if name == "iscontainer"@ {
        Some(digit_of(container_kind(n.kind)))
    } else if name == "nestinglevel"@ {
        Some(text::dec(sc.depth))
    } else if name == "counter"@ {
        Some(text::dec(sc.counts.element))
    } else if name == "filecounter"@ {
        Some(text::dec(sc.counts.file))
    } else if name == "foldercounter"@ {
        Some(text::dec(sc.counts.folder))
    } else {
        None
    }
}

/// A pad command that waits for its placeholder, and where it stands.
pub struct Pad {
    pub right: bool,
    pub width: nat,
    pub start: nat,
    pub end: nat,
}

/// A number of spaces.
pub open spec fn spaces(n: nat) -> Seq<char> {
    Seq::new(n, |i: int| ' ')
}

/// A value brought to the width of a pad.
pub open spec fn padded(v: Seq<char>, pad: Option<Pad>) -> Seq<char> {
    match pad {
        None => v,
        Some(p) => if v.len() >= p.width {
            v
        } else if p.right {
            v + spaces((p.width - v.len()) as nat)
        } else {
            spaces((p.width - v.len()) as nat) + v
        },
    }
}

/// The bytes of the characters from `a` up to `b` of a text.
pub open spec fn span(s: Seq<char>, a: nat, b: nat) -> std::ops::Range<usize> {
    std::ops::Range {
        start: text::byte_len(s.take(a as int)) as usize,
        end: text::byte_len(s.take(b as int)) as usize,
    }
}

/// The name of a pad command.
pub open spec fn pad_name(right: bool) -> Seq<char> {
    if right {
        "rightpad"@
    } else {
        "leftpad"@
    }
}

/// The mistake of a pad that no placeholder follows.
pub open spec fn dangling(s: Seq<char>, p: Pad) -> Mistake {
    Mistake::DanglingPad { command: pad_name(p.right), span: span(s, p.start, p.end) }
}

/// The characters from `a` up to `b`.
pub open spec fn cut(s: Seq<char>, a: nat, b: nat) -> Seq<char> {
    s.subrange(a as int, b as int)
}

/// Whether a word stands at `i`, before `to`.
pub open spec fn stands_at(s: Seq<char>, i: nat, to: nat, word: Seq<char>) -> bool {
    i + word.len() <= to && s.subrange(i as int, (i + word.len()) as int) == word
}

/// The first place from `i` on where a word stands, before `to`.
pub open spec fn next_at(s: Seq<char>, i: nat, to: nat, word: Seq<char>) -> Option<nat>
    decreases to - i,
{
    if i >= to {
        None
    } else if stands_at(s, i, to, word) {
        Some(i)
    } else {
        next_at(s, i + 1, to, word)
    }
}

pub proof fn lemma_next_at(s: Seq<char>, i: nat, to: nat, word: Seq<char>)
    ensures
        next_at(s, i, to, word) matches Some(j) ==> i <= j && j < to && j + word.len() <= to
            && stands_at(s, j, to, word),
    decreases to - i,
{
    if i < to && !stands_at(s, i, to, word) {
        lemma_next_at(s, i + 1, to, word);
    }
}

/// How many characters at the start of a text are no white space.
pub open spec fn word_len(s: Seq<char>) -> nat
    decreases s.len(),
{
    if s.len() == 0 || text::is_space(s[0]) {
        0
    } else {
        1 + word_len(s.drop_first())
    }
}

pub proof fn lemma_word_len(s: Seq<char>)
    ensures
        word_len(s) <= s.len(),
    decreases s.len(),
{
    if s.len() > 0 {
        lemma_word_len(s.drop_first());
    }
}

/// The first word of a text; no characters if there is none.
pub open spec fn first_word(s: Seq<char>) -> Seq<char> {
    let t = text::trim_start(s);
    t.take(word_len(t) as int)
}

/// What follows the first word of a text.
pub open spec fn after_word(s: Seq<char>) -> Seq<char> {
    let t = text::trim_start(s);
    t.skip(word_len(t) as int)
}

/// The second word of a text.
pub open spec fn second_word(s: Seq<char>) -> Option<Seq<char>> {
    let w = first_word(after_word(s));
    if w.len() == 0 {
        None
    } else {
        Some(w)
    }
}

/// Whether a text is made of digits.
pub open spec fn all_digits(s: Seq<char>) -> bool {
    s.len() > 0 && forall|i: int| 0 <= i < s.len() ==> '0' <= #[trigger] s[i] <= '9'
}

/// A text without a plus at its start.
pub open spec fn unsigned(s: Seq<char>) -> Seq<char> {
    if s.len() > 0 && s[0] == '+' {
        s.drop_first()
    } else {
        s
    }
}

/// The number that a text of digits stands for, perhaps with a plus in front.
pub open spec fn whole_number(s: Seq<char>) -> Option<nat> {
    if all_digits(unsigned(s)) && crate::filter_grammar::number(unsigned(s)) <= usize::MAX {
        Some(crate::filter_grammar::number(unsigned(s)))
    } else {
        None
    }
}

/// The width of a pad command, or what is wrong with it.
pub open spec fn pad_width(arg: Option<Seq<char>>) -> Result<nat, Seq<char>> {
    match arg {
        None => Err("missing width argument"@),
        Some(w) => match whole_number(w) {
            None => Err("`"@ + w + "` is not a non-negative integer"@),
            Some(n) => if n > MAX_PAD_WIDTH {
                Err("width "@ + text::dec(n) + " exceeds the cap of "@ + text::dec(
                    MAX_PAD_WIDTH as nat,
                ))
            } else {
                Ok(n)
            },
        },
    }
}

/// The spaces for each level of a nest command, or what is wrong with it.
pub open spec fn nest_width(arg: Option<Seq<char>>) -> Result<nat, Seq<char>> {
    match arg {
        None => Ok(2),
        Some(w) => match whole_number(w) {
            None => Err("`"@ + w + "` is not a non-negative integer"@),
            Some(n) => if n > MAX_NEST_WIDTH {
                Err("width "@ + text::dec(n) + " exceeds the cap of "@ + text::dec(
                    MAX_NEST_WIDTH as nat,
                ))
            } else {
                Ok(n)
            },
        },
    }
}

/// Where the parts of an `{if}` block lie: its `{else}`, if it has one, and its
/// `{endif}`, each from brace to brace.
pub struct Parts {
    pub other: Option<(nat, nat)>,
    pub end: (nat, nat),
}

/// The parts of the block whose `{if}` ends before `k`, of which `depth` inner
/// blocks are open and `other` is the `{else}` so far.
pub open spec fn parts_from(
    s: Seq<char>,
    k: nat,
    to: nat,
    depth: nat,
    other: Option<(nat, nat)>,
    opening: std::ops::Range<usize>,
) -> Result<Parts, Mistake>
    decreases to - k,
{
    if k >= to {
        Err(Mistake::MissingEndif { span: opening })
    } else if s[k as int] != '{' {
        parts_from(s, k + 1, to, depth, other, opening)
    } else if k + 1 < to && s[(k + 1) as int] == '{' {
        parts_from(s, k + 2, to, depth, other, opening)
    } else {
        proof {
            lemma_next_at(s, k + 1, to, seq!['}']);
        }
        match next_at(s, k + 1, to, seq!['}']) {
            None => Err(Mistake::UnterminatedCommand { span: span(s, k, s.len()) }),
            Some(j) => {
                let head = first_word(cut(s, k + 1, j));
                if head == "if"@ {
                    parts_from(s, j + 1, to, depth + 1, other, opening)
                } else if head == "endif"@ {
                    if depth == 0 {
                        Ok(Parts { other, end: (k, j + 1) })
                    } else {
                        parts_from(s, j + 1, to, (depth - 1) as nat, other, opening)
                    }
                } else if head == "else"@ && depth == 0 && other is None {
                    parts_from(s, j + 1, to, depth, Some((k, j + 1)), opening)
                } else {
                    parts_from(s, j + 1, to, depth, other, opening)
                }
            },
        }
    }
}

/// The condition of an `{if}` whose braces are at `i` and `j`: a name, and
/// whether it is negated.
pub open spec fn condition(s: Seq<char>, i: nat, j: nat) -> (Seq<char>, bool) {
    let t = text::trim(
        if stands_at(s, i, j, seq!['{', 'i', 'f']) {
            cut(s, i + 3, j)
        } else {
            cut(s, i, j)
        },
    );
    if t.len() > 0 && t[0] == '!' {
        (text::trim(t.drop_first()), true)
    } else {
        (t, false)
    }
}

/// Whether a node is what a condition's name says.
pub open spec fn is_so(kind: NodeKind, name: Seq<char>) -> Option<bool> {
    if name == "isfile"@ {
        Some(file_kind(kind))
    } else if name == "isfolder"@ {
        Some(folder_kind(kind))
    } else if name == "iscontainer"@ {
        Some(container_kind(kind))
    } else {
        None
    }
}

/// The branch of a block that is to be rendered.
pub open spec fn branch(parts: Parts, after_if: nat, holds: bool) -> Option<(nat, nat)> {
    if holds {
        Some(
            (
                after_if,
                match parts.other {
                    Some(o) => o.0,
                    None => parts.end.0,
                },
            ),
        )
    } else {
        match parts.other {
            Some(o) => Some((o.1, parts.end.0)),
            None => None,
        }
    }
}

/// A text in front of what follows, if nothing is wrong with that.
pub open spec fn before(t: Seq<char>, r: Result<Seq<char>, Mistake>) -> Result<Seq<char>, Mistake> {
    match r {
        Ok(u) => Ok(t + u),
        Err(m) => Err(m),
    }
}

/// The parts of a block lie behind its `{if}`, in order.
pub proof fn lemma_parts(
    s: Seq<char>,
    k: nat,
    to: nat,
    depth: nat,
    other: Option<(nat, nat)>,
    opening: std::ops::Range<usize>,
    from: nat,
)
    requires
        from <= k,
        to <= s.len(),
        other matches Some(o) ==> from <= o.0 && o.0 < o.1 && o.1 <= k,
    ensures
        parts_from(s, k, to, depth, other, opening) matches Ok(p) ==> from <= p.end.0 && p.end.0
            < p.end.1 && p.end.1 <= to && (p.other matches Some(o) ==> from <= o.0 && o.0 < o.1
            && o.1 <= p.end.0),
    decreases to - k,
{
    if k < to {
        if s[k as int] != '{' {
            lemma_parts(s, k + 1, to, depth, other, opening, from);
        } else if k + 1 < to && s[(k + 1) as int] == '{' {
            lemma_parts(s, k + 2, to, depth, other, opening, from);
        } else {
            lemma_next_at(s, k + 1, to, seq!['}']);
            if let Some(j) = next_at(s, k + 1, to, seq!['}']) {
                let head = first_word(cut(s, k + 1, j));
                if head == "if"@ {
                    lemma_parts(s, j + 1, to, depth + 1, other, opening, from);
                } else if head == "endif"@ {
                    if depth > 0 {
                        lemma_parts(s, j + 1, to, (depth - 1) as nat, other, opening, from);
                    }
                } else if head == "else"@ && depth == 0 && other is None {
                    lemma_parts(s, j + 1, to, depth, Some((k, j + 1)), opening, from);
                } else {
                    lemma_parts(s, j + 1, to, depth, other, opening, from);
                }
            }
        }
    }
}

/// What the characters from `i` up to `to` of a section stand for, with a pad
/// waiting and `level` blocks around, or the first mistake.
pub open spec fn rendered(
    sc: Scene,
    s: Seq<char>,
    i: nat,
    to: nat,
    pad: Option<Pad>,
    level: nat,
) -> Result<Seq<char>, Mistake>
    decreases to - i,
    when to <= s.len()
{
    if i >= to {
        match pad {
            None => Ok(Seq::empty()),
            Some(p) => Err(dangling(s, p)),
        }
    } else if stands_at(s, i, to, seq!['<', '%']) {
        proof {
            lemma_next_at(s, i + 2, to, seq!['%', '>']);
        }
        match next_at(s, i + 2, to, seq!['%', '>']) {
            None => Err(Mistake::UnterminatedPlaceholder { span: span(s, i, s.len()) }),
            Some(j) => {
                let name = cut(s, i + 2, j);
                match value(sc, name) {
                    None => Err(Mistake::UnknownPlaceholder { name, span: span(s, i, j + 2) }),
                    Some(v) => before(padded(v, pad), rendered(sc, s, j + 2, to, None, level)),
                }
            },
        }
    } else if s[i as int] == '{' {
        if i + 1 < to && s[(i + 1) as int] == '{' {
            before(seq!['{'], rendered(sc, s, i + 2, to, pad, level))
        } else {
            proof {
                lemma_next_at(s, i + 1, to, seq!['}']);
            }
            match next_at(s, i + 1, to, seq!['}']) {
                None => Err(Mistake::UnterminatedCommand { span: span(s, i, s.len()) }),
                Some(j) => {
                    let body = text::trim(cut(s, i + 1, j));
                    let head = first_word(body);
                    let here = span(s, i, j + 1);
                    if head == "&br"@ {
                        before(seq!['\n'], rendered(sc, s, j + 1, to, pad, level))
                    } else if head == "&tab"@ {
                        before(seq!['\t'], rendered(sc, s, j + 1, to, pad, level))
                    } else if head == "leftpad"@ || head == "rightpad"@ {
                        match pad_width(second_word(body)) {
                            Err(reason) => Err(
                                Mistake::InvalidCommandArg { command: head, reason, span: here },
                            ),
                            Ok(width) => if pad is Some {
                                Err(Mistake::DanglingPad { command: head, span: here })
                            } else {
                                rendered(
                                    sc,
                                    s,
                                    j + 1,
                                    to,
                                    Some(
                                        Pad {
                                            right: head == "rightpad"@,
                                            width,
                                            start: i,
                                            end: j + 1,
                                        },
                                    ),
                                    level,
                                )
                            },
                        }
                    } else if head == "nest"@ {
                        match nest_width(second_word(body)) {
                            Err(reason) => Err(
                                Mistake::InvalidCommandArg { command: head, reason, span: here },
                            ),
                            Ok(width) => before(
                                spaces(sc.depth * width),
                                rendered(sc, s, j + 1, to, pad, level),
                            ),
                        }
                    } else if head == "script"@ {
                        Err(Mistake::UnsupportedCommand { name: body, span: here })
                    } else if head == "if"@ {
                        let (name, negated) = condition(s, i, j);
                        let so = is_so(sc.state.nodes[sc.id as int].kind, name);
                        if level >= MAX_IF_DEPTH {
                            Err(Mistake::ConditionalNestingTooDeep)
                        } else if so is None {
                            Err(
                                Mistake::InvalidCondition {
                                    reason:
                                        "expected one of isfile, isfolder, iscontainer (optionally negated with `!`), got `"@
                                        + name + "`"@,
                                    span: here,
                                },
                            )
                        } else {
                            proof {
                                lemma_parts(s, j + 1, to, 0, None, here, j + 1);
                            }
                            match parts_from(s, j + 1, to, 0, None, here) {
                                Err(m) => Err(m),
                                Ok(parts) => match branch(parts, j + 1, so->0 != negated) {
                                    None => rendered(sc, s, parts.end.1, to, pad, level),
                                    Some(b) => match rendered(sc, s, b.0, b.1, None, level + 1) {
                                        Err(m) => Err(m),
                                        Ok(t) => match pad {
                                            Some(p) => Err(dangling(s, p)),
                                            None => before(
                                                t,
                                                rendered(sc, s, parts.end.1, to, pad, level),
                                            ),
                                        },
                                    },
                                },
                            }
                        }
                    } else if head == "else"@ || head == "endif"@ {
                        Err(Mistake::UnmatchedConditional { command: head, span: here })
                    } else {
                        Err(Mistake::UnknownCommand { name: body, span: here })
                    }
                },
            }
        }
    } else if pad is Some && !text::is_space(s[i as int]) {
        Err(dangling(s, pad->0))
    } else {
        before(seq![s[i as int]], rendered(sc, s, i + 1, to, pad, level))
    }
}

/// What a section stands for, or the first mistake in it.
pub open spec fn section(sc: Scene, s: Seq<char>) -> Result<Seq<char>, Mistake> {
    rendered(sc, s, 0, s.len(), None, 0)
}

} // verus!
