//! What holds of filters as a whole.
use vstd::prelude::*;

use crate::filter;
use crate::filter::{FilterVerdict, Group};
use crate::filter_ast::{ClassView, ConditionView, Span};
use crate::filter_grammar;
use crate::model::State;
use crate::node::Tag;
use crate::text;
use crate::{FileTime, NodeId};

verus! {

/// A filter without conditions lets every node pass.
pub proof fn law_empty_filter(s: State, id: NodeId, now: FileTime)
    ensures
        filter::passes(Seq::empty(), s, id, now),
        filter::verdict(Seq::empty(), s, id, now) == FilterVerdict::Visible,
{
}

/// One more exclusion asks for one thing more: that it does not hold.
pub proof fn law_exclusion(
    conds: Seq<ConditionView>,
    c: ConditionView,
    s: State,
    id: NodeId,
    now: FileTime,
)
    requires
        filter::group(c.kind) == Group::Exclusion,
    ensures
        filter::passes(conds.push(c), s, id, now) <==> filter::passes(conds, s, id, now)
            && !filter::holds(s, id, c.kind, now),
{
    lemma_push(conds, c, s, id, now);
}

/// One more demand asks for one thing more: that it holds.
pub proof fn law_demand(
    conds: Seq<ConditionView>,
    c: ConditionView,
    s: State,
    id: NodeId,
    now: FileTime,
)
    requires
        filter::group(c.kind) == Group::Demand,
    ensures
        filter::passes(conds.push(c), s, id, now) <==> filter::passes(conds, s, id, now)
            && filter::holds(s, id, c.kind, now),
{
    lemma_push(conds, c, s, id, now);
}

/// One more inclusion beside others lets more nodes pass, never fewer.
pub proof fn law_inclusion(
    conds: Seq<ConditionView>,
    c: ConditionView,
    s: State,
    id: NodeId,
    now: FileTime,
)
    requires
        filter::group(c.kind) == Group::Inclusion,
        filter::includes(conds),
        filter::passes(conds, s, id, now),
    ensures
        filter::passes(conds.push(c), s, id, now),
{
    lemma_push(conds, c, s, id, now);
}

/// What passing says of the conditions before the last and of the last.
proof fn lemma_push(
    conds: Seq<ConditionView>,
    c: ConditionView,
    s: State,
    id: NodeId,
    now: FileTime,
)
    ensures
        filter::group(c.kind) != Group::Inclusion ==> (filter::passes(conds.push(c), s, id, now)
            <==> filter::passes(conds, s, id, now) && (filter::group(c.kind) == Group::Demand
            <==> filter::holds(s, id, c.kind, now))),
        filter::group(c.kind) == Group::Inclusion && filter::includes(conds) && filter::passes(
            conds,
            s,
            id,
            now,
        ) ==> filter::passes(conds.push(c), s, id, now),
{
    let more = conds.push(c);
    assert(more[conds.len() as int] == c);
    assert(forall|i: int| 0 <= i < conds.len() ==> more[i] == conds[i]);
    if filter::includes(conds) {
        let i = choose|i: int|
            0 <= i < conds.len() && filter::group((#[trigger] conds[i]).kind) == Group::Inclusion;
        assert(filter::group(more[i].kind) == Group::Inclusion);
        if filter::passes(conds, s, id, now) {
            let j = choose|j: int|
                0 <= j < conds.len() && filter::group((#[trigger] conds[j]).kind)
                    == Group::Inclusion && filter::holds(s, id, conds[j].kind, now);
            assert(filter::group(more[j].kind) == Group::Inclusion && filter::holds(
                s,
                id,
                more[j].kind,
                now,
            ));
        }
    }
    if filter::passes(more, s, id, now) {
        assert forall|i: int|
            0 <= i < conds.len() && filter::group((#[trigger] conds[i]).kind)
                == Group::Exclusion implies !filter::holds(s, id, conds[i].kind, now) by {
            assert(more[i] == conds[i]);
        }
        assert forall|i: int|
            0 <= i < conds.len() && filter::group((#[trigger] conds[i]).kind)
                == Group::Demand implies filter::holds(s, id, conds[i].kind, now) by {
            assert(more[i] == conds[i]);
        }
        if filter::includes(more) && filter::group(c.kind) != Group::Inclusion {
            let j = choose|j: int|
                0 <= j < more.len() && filter::group((#[trigger] more[j]).kind) == Group::Inclusion
                    && filter::holds(s, id, more[j].kind, now);
            assert(conds[j] == more[j]);
        }
    }
}

/// The order of the conditions does not matter.
pub proof fn law_order(
    a: Seq<ConditionView>,
    b: Seq<ConditionView>,
    s: State,
    id: NodeId,
    now: FileTime,
)
    requires
        forall|i: int| 0 <= i < a.len() ==> b.contains(#[trigger] a[i]),
        forall|i: int| 0 <= i < b.len() ==> a.contains(#[trigger] b[i]),
    ensures
        filter::passes(a, s, id, now) == filter::passes(b, s, id, now),
{
    if filter::passes(a, s, id, now) {
        lemma_order(a, b, s, id, now);
    }
    if filter::passes(b, s, id, now) {
        lemma_order(b, a, s, id, now);
    }
}

proof fn lemma_order(
    a: Seq<ConditionView>,
    b: Seq<ConditionView>,
    s: State,
    id: NodeId,
    now: FileTime,
)
    requires
        forall|i: int| 0 <= i < a.len() ==> b.contains(#[trigger] a[i]),
        forall|i: int| 0 <= i < b.len() ==> a.contains(#[trigger] b[i]),
        filter::passes(a, s, id, now),
    ensures
        filter::passes(b, s, id, now),
{
    assert forall|i: int|
        0 <= i < b.len() && filter::group((#[trigger] b[i]).kind)
            == Group::Exclusion implies !filter::holds(s, id, b[i].kind, now) by {
        assert(a.contains(b[i]));
        let j = choose|j: int| 0 <= j < a.len() && a[j] == b[i];
        assert(filter::group(a[j].kind) == Group::Exclusion);
    }
    assert forall|i: int|
        0 <= i < b.len() && filter::group((#[trigger] b[i]).kind)
            == Group::Demand implies filter::holds(s, id, b[i].kind, now) by {
        assert(a.contains(b[i]));
        let j = choose|j: int| 0 <= j < a.len() && a[j] == b[i];
        assert(filter::group(a[j].kind) == Group::Demand);
    }
    if filter::includes(b) {
        let i = choose|i: int|
            0 <= i < b.len() && filter::group((#[trigger] b[i]).kind) == Group::Inclusion;
        assert(a.contains(b[i]));
        let j = choose|j: int| 0 <= j < a.len() && a[j] == b[i];
        assert(filter::group(a[j].kind) == Group::Inclusion);
        let k = choose|k: int|
            0 <= k < a.len() && filter::group((#[trigger] a[k]).kind) == Group::Inclusion
                && filter::holds(s, id, a[k].kind, now);
        assert(b.contains(a[k]));
        let m = choose|m: int| 0 <= m < b.len() && b[m] == a[k];
        assert(filter::group(b[m].kind) == Group::Inclusion && filter::holds(
            s,
            id,
            b[m].kind,
            now,
        ));
    }
}

/// Everything below a hidden node is hidden, so that its subtree can be left out.
pub proof fn law_hidden_subtree(
    conds: Seq<ConditionView>,
    s: State,
    top: NodeId,
    x: NodeId,
    now: FileTime,
)
    requires
        s.links(),
        s.live(top),
        s.within(x, top),
        filter::verdict(conds, s, top, now) == FilterVerdict::Hidden,
    ensures
        filter::verdict(conds, s, x, now) == FilterVerdict::Hidden,
{
    assert forall|y: NodeId| #[trigger] s.within(y, x) implies !filter::passes(conds, s, y, now) by {
        s.lemma_within_trans(y, x, top);
        assert(s.within(y, top));
    }
    s.lemma_within(x, x);
    assert(s.within(x, x));
}

/// A node that passes keeps every node above it from being hidden.
pub proof fn law_way_to_match(
    conds: Seq<ConditionView>,
    s: State,
    top: NodeId,
    x: NodeId,
    now: FileTime,
)
    requires
        s.links(),
        s.live(top),
        s.within(x, top),
        filter::passes(conds, s, x, now),
    ensures
        filter::verdict(conds, s, top, now) != FilterVerdict::Hidden,
{
    if x != top {
        assert(s.within(x, top) && x != top && filter::passes(conds, s, x, now));
    }
}

/// Tags are inherited: a tag that counts for a node counts for all below it.
pub proof fn law_tags_inherited(s: State, top: NodeId, x: NodeId, tag: Tag)
    requires
        s.links(),
        s.live(top),
        s.within(x, top),
        filter::tagged(s, top, tag),
    ensures
        filter::tagged(s, x, tag),
{
    let y = choose|y: NodeId|
        s.live(y) && #[trigger] s.within(top, y) && s.nodes[y as int].tag == Some(tag);
    s.lemma_within_trans(x, top, y);
    assert(s.within(x, y));
}

/// Whether a span lies in a range of bytes.
pub open spec fn lies_in(span: Span, start: int, end: int) -> bool {
    start <= span.start <= span.end <= end
}

/// Every condition and every warning has its place in the filter string.
pub proof fn law_spans(input: Seq<char>, classes: Seq<ClassView>)
    requires
        text::byte_len(input) <= usize::MAX,
    ensures
        forall|i: int|
            0 <= i < filter_grammar::parsed(input, classes).0.len() ==> lies_in(
                (#[trigger] filter_grammar::parsed(input, classes).0[i]).span,
                0,
                text::byte_len(input) as int,
            ),
        forall|i: int|
            0 <= i < filter_grammar::parsed(input, classes).1.len() ==> lies_in(
                (#[trigger] filter_grammar::parsed(input, classes).1[i]).span,
                0,
                text::byte_len(input) as int,
            ),
{
    lemma_spans(input, 0, classes);
}

proof fn lemma_trims(s: Seq<char>)
    ensures
        text::byte_len(text::trim_start(s)) <= text::byte_len(s),
        text::byte_len(text::trim_end(s)) <= text::byte_len(s),
    decreases s.len(),
{
    if s.len() > 0 {
        lemma_trims(s.drop_first());
        lemma_trims(s.drop_last());
        assert(s =~= s.drop_last() + seq![s.last()]);
        text::lemma_byte_len_concat(s.drop_last(), seq![s.last()]);
    }
}

proof fn lemma_spans(s: Seq<char>, start: nat, classes: Seq<ClassView>)
    requires
        start + text::byte_len(s) <= usize::MAX,
    ensures
        forall|i: int|
            0 <= i < filter_grammar::pieces(s, start, classes).0.len() ==> lies_in(
                (#[trigger] filter_grammar::pieces(s, start, classes).0[i]).span,
                start as int,
                (start + text::byte_len(s)) as int,
            ),
        forall|i: int|
            0 <= i < filter_grammar::pieces(s, start, classes).1.len() ==> lies_in(
                (#[trigger] filter_grammar::pieces(s, start, classes).1[i]).span,
                start as int,
                (start + text::byte_len(s)) as int,
            ),
    decreases s.len(),
{
    let n = text::find(s, ';') as int;
    text::lemma_find(s, ';');
    let piece = s.take(n);
    assert(s =~= piece + s.skip(n));
    text::lemma_byte_len_concat(piece, s.skip(n));
    lemma_trims(piece);
    lemma_trims(text::trim_start(piece));
    let span = filter_grammar::span_of(piece, start);
    assert(lies_in(span, start as int, (start + text::byte_len(s)) as int));
    let all = filter_grammar::pieces(s, start, classes);
    if n < s.len() {
        assert(s.skip(n).drop_first() =~= s.skip(n + 1));
        assert(s.skip(n)[0] == ';');
        let next = start + text::byte_len(piece) + 1;
        lemma_spans(s.skip(n + 1), next, classes);
        let rest = filter_grammar::pieces(s.skip(n + 1), next, classes);
        assert forall|i: int| 0 <= i < all.0.len() implies lies_in(
            (#[trigger] all.0[i]).span,
            start as int,
            (start + text::byte_len(s)) as int,
        ) by {
            if all.0.len() == rest.0.len() {
                assert(all.0[i] == rest.0[i]);
            } else if i > 0 {
                assert(all.0[i] == rest.0[i - 1]);
            }
        }
        assert forall|i: int| 0 <= i < all.1.len() implies lies_in(
            (#[trigger] all.1[i]).span,
            start as int,
            (start + text::byte_len(s)) as int,
        ) by {
            if all.1.len() == rest.1.len() {
                assert(all.1[i] == rest.1[i]);
            } else if i > 0 {
                assert(all.1[i] == rest.1[i - 1]);
            }
        }
    }
}

/// A `;` at the end changes nothing.
pub proof fn law_trailing_separator(input: Seq<char>, classes: Seq<ClassView>)
    ensures
        filter_grammar::parsed(input.push(';'), classes) == filter_grammar::parsed(input, classes),
{
    lemma_trailing(input, 0, classes);
}

proof fn lemma_find_pushed(s: Seq<char>)
    ensures
        text::find(s.push(';'), ';') == text::find(s, ';'),
    decreases s.len(),
{
    if s.len() > 0 && s[0] != ';' {
        lemma_find_pushed(s.drop_first());
        assert(s.push(';').drop_first() =~= s.drop_first().push(';'));
    }
}

proof fn lemma_trailing(s: Seq<char>, start: nat, classes: Seq<ClassView>)
    ensures
        filter_grammar::pieces(s.push(';'), start, classes) == filter_grammar::pieces(
            s,
            start,
            classes,
        ),
    decreases s.len(),
{
    let more = s.push(';');
    let n = text::find(s, ';') as int;
    text::lemma_find(s, ';');
    lemma_find_pushed(s);
    assert(more.take(n) =~= s.take(n));
    let next = start + text::byte_len(s.take(n)) + 1;
    if n < s.len() {
        assert(more.skip(n + 1) =~= s.skip(n + 1).push(';'));
        lemma_trailing(s.skip(n + 1), next, classes);
    } else {
        let none = more.skip(n + 1);
        assert(none =~= Seq::<char>::empty());
        assert(none.take(0) =~= Seq::<char>::empty());
        assert(text::find(none, ';') == 0);
        assert(text::trim(Seq::<char>::empty()).len() == 0) by {
            assert(text::trim_start(Seq::<char>::empty()) =~= Seq::<char>::empty());
        }
        assert(filter_grammar::pieces(none, next, classes) == (
            Seq::<ConditionView>::empty(),
            Seq::<crate::filter_ast::WarningView>::empty(),
        ));
    }
}

/// What stands on either side of a `;` is read by itself: a mistake in one
/// condition costs no other.
pub proof fn law_conditions_apart(a: Seq<char>, b: Seq<char>, classes: Seq<ClassView>)
    ensures
        ({
            let left = filter_grammar::parsed(a, classes);
            let right = filter_grammar::pieces(b, text::byte_len(a) + 1, classes);
            filter_grammar::parsed(a.push(';') + b, classes) == (left.0 + right.0, left.1 + right.1)
        }),
{
    lemma_apart(a, b, 0, classes);
}

proof fn lemma_find_in_front(a: Seq<char>, b: Seq<char>)
    ensures
        text::find(a.push(';') + b, ';') == text::find(a, ';'),
    decreases a.len(),
{
    let all = a.push(';') + b;
    if a.len() > 0 && a[0] != ';' {
        lemma_find_in_front(a.drop_first(), b);
        assert(all.drop_first() =~= a.drop_first().push(';') + b);
    }
}

proof fn lemma_apart(a: Seq<char>, b: Seq<char>, start: nat, classes: Seq<ClassView>)
    ensures
        ({
            let left = filter_grammar::pieces(a, start, classes);
            let right = filter_grammar::pieces(b, start + text::byte_len(a) + 1, classes);
            filter_grammar::pieces(a.push(';') + b, start, classes) == (
                left.0 + right.0,
                left.1 + right.1,
            )
        }),
    decreases a.len(),
{
    let all = a.push(';') + b;
    let n = text::find(a, ';') as int;
    text::lemma_find(a, ';');
    lemma_find_in_front(a, b);
    let piece = a.take(n);
    assert(all.take(n) =~= piece);
    let next = start + text::byte_len(piece) + 1;
    let left = filter_grammar::pieces(a, start, classes);
    let right = filter_grammar::pieces(b, start + text::byte_len(a) + 1, classes);
    let whole = filter_grammar::pieces(all, start, classes);
    if n < a.len() {
        let more = a.skip(n + 1);
        assert(all.skip(n + 1) =~= more.push(';') + b);
        assert(a =~= piece + a.skip(n));
        text::lemma_byte_len_concat(piece, a.skip(n));
        assert(a.skip(n).drop_first() =~= more);
        assert(a.skip(n)[0] == ';');
        lemma_apart(more, b, next, classes);
        assert(whole.0 =~= left.0 + right.0);
        assert(whole.1 =~= left.1 + right.1);
    } else {
        assert(piece =~= a);
        assert(all.skip(n + 1) =~= b);
        assert(whole.0 =~= left.0 + right.0);
        assert(whole.1 =~= left.1 + right.1);
    }
}

} // verus!
