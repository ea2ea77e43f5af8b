//! Paths as texts: their components, and what follows from them.
//!
//! A path that starts with a slash has a first component `/`. Slashes in a row
//! count as one, and a dot is a component only at the start of a path without a
//! slash in front. Two paths with the same components are the same path.
use vstd::prelude::*;
use vstd::string::*;

use crate::text;

verus! {

/// The component of the root.
pub open spec fn root_part() -> Seq<char> {
    seq!['/']
}

/// Components with one more, if it counts.
pub open spec fn with_part(parts: Seq<Seq<char>>, p: Seq<char>, first: bool) -> Seq<Seq<char>> {
    if p.len() == 0 || (p == seq!['.'] && !first) {
        parts
    } else {
        parts.push(p)
    }
}

/// The components of the rest of a path behind those before it.
pub open spec fn parts_from(s: Seq<char>, parts: Seq<Seq<char>>, first: bool) -> Seq<Seq<char>>
    decreases s.len(),
{
    let n = text::find(s, '/') as int;
    let more = with_part(parts, s.take(n), first);
    if n >= s.len() {
        more
    } else {
        parts_from(s.skip(n + 1), more, false)
    }
}

/// The components of a path.
pub open spec fn parts(s: Seq<char>) -> Seq<Seq<char>> {
    if s.len() > 0 && s[0] == '/' {
        parts_from(s.drop_first(), seq![root_part()], false)
    } else {
        parts_from(s, Seq::empty(), true)
    }
}

/// The text of a path that all texts of the same path share.
pub open spec fn canonical(s: Seq<char>) -> Seq<char> {
    text::join_all(parts(s))
}

/// The components of a path.
pub fn components(path: &str) -> (v: Vec<String>)
    ensures
        text::texts(v@) == parts(path@),
{
    let s = text::chars_of(path);
    let mut v: Vec<String> = Vec::new();
    let absolute = s.len() > 0 && s[0] == '/';
    let mut from: usize = 0;
    let mut first = true;
    proof {
        assert(text::texts(v@) =~= Seq::empty());
        assert(s@.skip(0) =~= s@);
    }
    if absolute {
        v.push("/".to_owned());
        from = 1;
        first = false;
        proof {
            reveal_strlit("/");
            assert(v@[0]@ =~= root_part());
            assert(text::texts(v@) =~= seq![root_part()]);
            assert(s@.drop_first() =~= s@.skip(1));
        }
    }
    loop
        invariant
            s@ == path@,
            from <= s@.len(),
            parts(s@) == parts_from(s@.skip(from as int), text::texts(v@), first),
        decreases s@.len() - from,
    {
        let end: usize = text::find_from(&s, from, '/');
        let p = text::part(&s, from, end);
        let ghost rest = s@.skip(from as int);
        let ghost before = text::texts(v@);
        proof {
            assert(rest.take(end - from) =~= p@);
        }
        let dot = p.len() == 1 && p[0] == '.';
        proof {
            if dot {
                assert(p@ =~= seq!['.']);
            } else if p@ == seq!['.'] {
                assert(p@[0] == '.');
            }
        }
        if p.len() > 0 && (first || !dot) {
            v.push(text::text_of(&p));
            proof {
                assert(text::texts(v@) =~= before.push(p@));
            }
        }
        if end == s.len() {
            return v;
        }
        proof {
            assert(rest.skip(end - from + 1) =~= s@.skip(end + 1));
        }
        from = end + 1;
        first = false;
    }
}

/// The text of components.
pub fn join_parts(v: &Vec<String>) -> (path: String)
    ensures
        path@ == text::join_all(text::texts(v@)),
{
    let mut path: String = String::new();
    proof {
        assert(path@ =~= Seq::empty());
        assert(text::texts(v@).take(0) =~= Seq::empty());
    }
    for i in 0..v.len()
        invariant
            path@ == text::join_all(text::texts(v@).take(i as int)),
    {
        path = text::join(path.as_str(), v[i].as_str());
        proof {
            assert(text::texts(v@).take(i + 1).drop_last() =~= text::texts(v@).take(i as int));
            assert(text::texts(v@).take(i + 1).last() == v@[i as int]@);
        }
    }
    proof {
        assert(text::texts(v@).take(v@.len() as int) =~= text::texts(v@));
    }
    path
}

/// The text of a path that all texts of the same path share.
pub fn canonical_path(path: &str) -> (r: String)
    ensures
        r@ == canonical(path@),
{
    join_parts(&components(path))
}

/// Whether two texts are the same path.
pub fn same_path(a: &str, b: &str) -> (r: bool)
    ensures
        r == (parts(a@) == parts(b@)),
{
    let x = components(a);
    let y = components(b);
    same_parts(&x, &y)
}

fn same_parts(x: &Vec<String>, y: &Vec<String>) -> (r: bool)
    ensures
        r == (text::texts(x@) == text::texts(y@)),
{
    if x.len() != y.len() {
        proof {
            assert(text::texts(x@).len() != text::texts(y@).len());
        }
        return false;
    }
    for i in 0..x.len()
        invariant
            x@.len() == y@.len(),
            forall|j: int| 0 <= j < i ==> (#[trigger] x@[j])@ == y@[j]@,
    {
        if !text::is_text(&text::chars_of(x[i].as_str()), y[i].as_str()) {
            proof {
                assert(text::texts(x@)[i as int] != text::texts(y@)[i as int]);
            }
            return false;
        }
    }
    proof {
        assert(text::texts(x@) =~= text::texts(y@));
    }
    true
}

/// The components of a path behind those of another that it starts with.
pub open spec fn below(path: Seq<char>, base: Seq<char>) -> Option<Seq<Seq<char>>> {
    let p = parts(path);
    let b = parts(base);
    if b.len() <= p.len() && p.take(b.len() as int) == b {
        Some(p.skip(b.len() as int))
    } else {
        None
    }
}

/// The components of a path behind those of another that it starts with.
pub fn strip_prefix(path: &str, base: &str) -> (r: Option<Vec<String>>)
    ensures
        match r {
            Some(v) => below(path@, base@) == Some(text::texts(v@)),
            None => below(path@, base@) is None,
        },
{
    let p = components(path);
    let b = components(base);
    if b.len() > p.len() {
        return None;
    }
    let ghost head = text::texts(p@).take(b@.len() as int);
    for i in 0..b.len()
        invariant
            b@.len() <= p@.len(),
            head == text::texts(p@).take(b@.len() as int),
            text::texts(p@) == parts(path@),
            text::texts(b@) == parts(base@),
            forall|j: int| 0 <= j < i ==> (#[trigger] p@[j])@ == b@[j]@,
    {
        if !text::is_text(&text::chars_of(p[i].as_str()), b[i].as_str()) {
            proof {
                assert(head[i as int] == text::texts(p@)[i as int]);
                assert(head[i as int] != text::texts(b@)[i as int]);
            }
            return None;
        }
    }
    proof {
        assert(head =~= text::texts(b@));
    }
    let mut v: Vec<String> = Vec::new();
    for i in b.len()..p.len()
        invariant
            b@.len() <= i <= p@.len(),
            v@.len() == i - b@.len(),
            forall|j: int| 0 <= j < v@.len() ==> (#[trigger] v@[j])@ == p@[b@.len() + j]@,
    {
        v.push(p[i].clone());
    }
    proof {
        assert(text::texts(v@) =~= text::texts(p@).skip(b@.len() as int));
    }
    Some(v)
}

/// The path above a path, in the text that all texts of it share; none of the
/// root and of a path without components.
pub open spec fn parent(path: Seq<char>) -> Option<Seq<char>> {
    let p = parts(path);
    if p.len() == 0 || p.last() == root_part() {
        None
    } else {
        Some(text::join_all(p.drop_last()))
    }
}

/// The path above a path.
pub fn parent_path(path: &str) -> (r: Option<String>)
    ensures
        match r {
            Some(s) => parent(path@) == Some(s@),
            None => parent(path@) is None,
        },
{
    let mut v = components(path);
    if v.len() == 0 {
        return None;
    }
    let last = text::chars_of(v[v.len() - 1].as_str());
    proof {
        assert(text::texts(v@).last() == last@);
        if last@.len() == 1 && last@[0] == '/' {
            assert(last@ =~= root_part());
        } else if last@ == root_part() {
            assert(last@[0] == '/');
        }
    }
    if last.len() == 1 && last[0] == '/' {
        return None;
    }
    let ghost all = text::texts(v@);
    let _ = v.pop();
    proof {
        assert(text::texts(v@) =~= all.drop_last());
    }
    Some(join_parts(&v))
}

/// The name that a path ends in; none if it ends in the root, a dot or two dots.
pub open spec fn file_name(path: Seq<char>) -> Option<Seq<char>> {
    let p = parts(path);
    if p.len() == 0 || p.last() == root_part() || p.last() == seq!['.'] || p.last() == seq![
        '.',
        '.',
    ] {
        None
    } else {
        Some(p.last())
    }
}

/// The name that a path ends in.
pub fn name_of(path: &str) -> (r: Option<String>)
    ensures
        match r {
            Some(s) => file_name(path@) == Some(s@),
            None => file_name(path@) is None,
        },
{
    let v = components(path);
    if v.len() == 0 {
        return None;
    }
    let last = text::chars_of(v[v.len() - 1].as_str());
    proof {
        assert(text::texts(v@).last() == last@);
        if last@.len() == 1 {
            assert(last@ =~= seq![last@[0]]);
            assert(seq!['/'][0] == '/' && seq!['.'][0] == '.');
        }
        if last@.len() == 2 {
            assert(last@ =~= seq![last@[0], last@[1]]);
            assert(seq!['.', '.'][0] == '.' && seq!['.', '.'][1] == '.');
        }
    }
    if last.len() == 1 && (last[0] == '/' || last[0] == '.') {
        return None;
    }
    if last.len() == 2 && last[0] == '.' && last[1] == '.' {
        return None;
    }
    Some(v[v.len() - 1].clone())
}

/// A component that is no root: a text without slashes.
spec fn plain(p: Seq<char>) -> bool {
    p.len() > 0 && forall|i: int| 0 <= i < p.len() ==> #[trigger] p[i] != '/'
}

/// Components as they come out of a path.
spec fn regular(v: Seq<Seq<char>>) -> bool {
    forall|i: int|
        0 <= i < v.len() ==> (i == 0 && #[trigger] v[i] == root_part()) || (plain(v[i]) && (v[i]
            == seq!['.'] ==> i == 0))
}

proof fn lemma_find_take(s: Seq<char>, c: char)
    ensures
        forall|i: int|
            0 <= i < s.take(text::find(s, c) as int).len() ==> #[trigger] s.take(
                text::find(s, c) as int,
            )[i] != c,
{
    text::lemma_find(s, c);
}

proof fn lemma_regular(s: Seq<char>, v: Seq<Seq<char>>, first: bool)
    requires
        regular(v),
        first ==> v.len() == 0,
    ensures
        regular(parts_from(s, v, first)),
    decreases s.len(),
{
    let n = text::find(s, '/') as int;
    text::lemma_find(s, '/');
    let p = s.take(n);
    lemma_find_take(s, '/');
    let more = with_part(v, p, first);
    assert(regular(more)) by {
        assert forall|i: int| 0 <= i < more.len() implies (i == 0 && #[trigger] more[i]
            == root_part()) || (plain(more[i]) && (more[i] == seq!['.'] ==> i == 0)) by {
            if i < v.len() {
                assert(more[i] == v[i]);
            }
        }
    }
    if n < s.len() {
        lemma_regular(s.skip(n + 1), more, false);
    }
}

proof fn lemma_find_joined(a: Seq<char>, b: Seq<char>)
    requires
        forall|i: int| 0 <= i < a.len() ==> #[trigger] a[i] != '/',
    ensures
        text::find(a.push('/') + b, '/') == a.len(),
        text::find(a, '/') == a.len(),
    decreases a.len(),
{
    let s = a.push('/') + b;
    if a.len() == 0 {
        assert(s[0] == '/');
    } else {
        assert(s[0] == a[0]);
        assert(s.drop_first() =~= a.drop_first().push('/') + b);
        assert forall|i: int| 0 <= i < a.drop_first().len() implies #[trigger] a.drop_first()[i]
            != '/' by {
            assert(a.drop_first()[i] == a[i + 1]);
        }
        lemma_find_joined(a.drop_first(), b);
    }
}

/// A component behind a path adds itself to the components of the path.
proof fn lemma_add_part(s: Seq<char>, v: Seq<Seq<char>>, first: bool, p: Seq<char>)
    requires
        plain(p),
        p != seq!['.'],
    ensures
        s.len() > 0 && s.last() != '/' ==> parts_from(s.push('/') + p, v, first) == parts_from(
            s,
            v,
            first,
        ).push(p),
        s.len() == 0 ==> parts_from(p, v, first) == v.push(p),
    decreases s.len(),
{
    if s.len() == 0 {
        lemma_find_joined(p, Seq::empty());
        assert(p.take(p.len() as int) =~= p);
    } else if s.last() != '/' {
        let whole = s.push('/') + p;
        let n = text::find(s, '/') as int;
        text::lemma_find(s, '/');
        if n >= s.len() {
            assert forall|i: int| 0 <= i < s.len() implies #[trigger] s[i] != '/' by {}
            lemma_find_joined(s, p);
            assert(whole.take(s.len() as int) =~= s);
            assert(s.take(n) =~= s);
            assert(whole.skip(s.len() as int + 1) =~= p);
            lemma_add_part(Seq::empty(), with_part(v, s, first), false, p);
        } else {
            let head = s.take(n);
            let tail = s.skip(n + 1);
            assert(tail.len() > 0) by {
                if tail.len() == 0 {
                    assert(s.last() == s[n]);
                }
            }
            assert(tail.last() == s.last());
            assert forall|i: int| 0 <= i < head.len() implies #[trigger] head[i] != '/' by {
                assert(head[i] == s[i]);
            }
            lemma_find_joined(head, tail.push('/') + p);
            assert(whole =~= head.push('/') + (tail.push('/') + p));
            assert(whole.take(n) =~= head);
            assert(whole.skip(n + 1) =~= tail.push('/') + p);
            lemma_add_part(tail, with_part(v, head, first), false, p);
        }
    }
}

/// The components of the text of regular components are those components.
proof fn lemma_join(v: Seq<Seq<char>>)
    requires
        regular(v),
    ensures
        parts(text::join_all(v)) == v,
        v.len() > 1 ==> text::join_all(v).len() > 0 && text::join_all(v).last() != '/',
        v.len() == 1 ==> text::join_all(v) == v[0],
        v.len() > 0 ==> text::join_all(v).len() > 0 && text::join_all(v)[0] == v[0][0],
    decreases v.len(),
{
    if v.len() == 0 {
        let none = Seq::<char>::empty();
        assert(text::join_all(v) =~= none);
        assert(none.take(0) =~= none);
        assert(text::find(none, '/') == 0);
        assert(parts(none) =~= v);
    } else if v.len() == 1 {
        let p = v[0];
        assert(v.drop_last() =~= Seq::<Seq<char>>::empty());
        assert(text::join_all(v.drop_last()) =~= Seq::<char>::empty());
        assert(text::join_all(v) =~= p);
        if p == root_part() {
            assert(p.drop_first() =~= Seq::<char>::empty());
            let none = Seq::<char>::empty();
            assert(none.take(0) =~= none);
            assert(text::find(none, '/') == 0);
            assert(parts(p) =~= v);
        } else {
            lemma_find_joined(p, Seq::empty());
            assert(p.take(p.len() as int) =~= p);
            assert(parts(p) =~= v);
        }
    } else {
        let init = v.drop_last();
        let p = v.last();
        assert(v[v.len() - 1] == p);
        assert(plain(p) && p != seq!['.']);
        assert forall|i: int| 0 <= i < init.len() implies (i == 0 && #[trigger] init[i]
            == root_part()) || (plain(init[i]) && (init[i] == seq!['.'] ==> i == 0)) by {
            assert(init[i] == v[i]);
        }
        lemma_join(init);
        let base = text::join_all(init);
        let whole = text::join_all(v);
        assert(p[0] != '/');
        assert(init[0] == v[0]);
        if init.len() == 1 && init[0] == root_part() {
            assert(base =~= root_part());
            assert(whole =~= root_part() + p);
            assert(whole.drop_first() =~= p);
            lemma_add_part(Seq::empty(), seq![root_part()], false, p);
            assert(v =~= seq![root_part()].push(p));
        } else {
            if init.len() == 1 {
                assert(base == init[0]);
                assert(plain(init[0]));
                assert(base[base.len() - 1] != '/');
            }
            assert(whole =~= base.push('/') + p);
            if base[0] == '/' {
                let rest = base.drop_first();
                assert(whole.drop_first() =~= rest.push('/') + p);
                if rest.len() > 0 {
                    assert(rest.last() == base.last());
                    lemma_add_part(rest, seq![root_part()], false, p);
                }
                assert(v =~= init.push(p));
            } else {
                lemma_add_part(base, Seq::empty(), true, p);
                assert(v =~= init.push(p));
            }
        }
        assert(whole.last() == p.last());
        assert(whole[0] == base[0]);
    }
}

/// Two texts are the same path exactly if they have the same canonical text.
pub proof fn law_canonical(a: Seq<char>, b: Seq<char>)
    ensures
        parts(canonical(a)) == parts(a),
        canonical(a) == canonical(b) <==> parts(a) == parts(b),
{
    lemma_parts_regular(a);
    lemma_parts_regular(b);
    lemma_join(parts(a));
    lemma_join(parts(b));
}

proof fn lemma_parts_regular(s: Seq<char>)
    ensures
        regular(parts(s)),
{
    if s.len() > 0 && s[0] == '/' {
        assert(regular(seq![root_part()]));
        lemma_regular(s.drop_first(), seq![root_part()], false);
    } else {
        lemma_regular(s, Seq::empty(), true);
    }
}

/// A name put behind a path is the name of the new path, the old path is what
/// stands above it, and below the old path lies that name alone.
pub proof fn law_child_paths(base: Seq<char>, name: Seq<char>)
    requires
        base.len() > 0,
        name.len() > 0,
        !name.contains('/'),
        name != seq!['.'],
        name != seq!['.', '.'],
        base.last() != '/' || base == seq!['/'],
    ensures
        ({
            let path = text::joined(base, name);
            &&& path == (if base.last() == '/' {
                base + name
            } else {
                base + seq!['/'] + name
            })
            &&& parts(path) == parts(base).push(name)
            &&& file_name(path) == Some(name)
            &&& parent(path) == Some(canonical(base))
            &&& below(path, base) == Some(seq![name])
            &&& below(base, path) is None
        }),
{
    let path = text::joined(base, name);
    assert forall|i: int| 0 <= i < name.len() implies #[trigger] name[i] != '/' by {
        assert(name.contains(name[i]));
    }
    if base == seq!['/'] {
        assert(path.drop_first() =~= name);
        assert(base.drop_first() =~= Seq::<char>::empty());
        lemma_add_part(Seq::empty(), seq![root_part()], false, name);
        assert(text::find(Seq::<char>::empty(), '/') == 0);
        assert(Seq::<char>::empty().take(0) =~= Seq::<char>::empty());
    } else if base[0] == '/' {
        assert(path.drop_first() =~= base.drop_first().push('/') + name);
        assert(base.drop_first().last() == base.last());
        lemma_add_part(base.drop_first(), seq![root_part()], false, name);
    } else {
        lemma_add_part(base, Seq::empty(), true, name);
    }
    let b = parts(base);
    let p = parts(path);
    assert(p == b.push(name));
    assert(name != root_part()) by {
        if name == root_part() {
            assert(name[0] == '/');
        }
    }
    assert(path =~= (if base.last() == '/' {
        base + name
    } else {
        base + seq!['/'] + name
    }));
    assert(p.drop_last() =~= b);
    assert(p.take(b.len() as int) =~= b);
    assert(p.skip(b.len() as int) =~= seq![name]);
}

} // verus!
