//! Case-insensitive wildcard matching of names.
//!
//! `*` matches any sequence of characters, the empty one too, `?` matches
//! exactly one character, and a pattern must match the whole name.
use vstd::prelude::*;

use crate::text;

verus! {

/// Whether a name matches a pattern, character by character.
pub open spec fn wild(p: Seq<char>, n: Seq<char>) -> bool
    decreases p.len() + n.len(),
{
    if p.len() == 0 {
        n.len() == 0
    } else if p[0] == '*' {
        wild(p.drop_first(), n) || (n.len() > 0 && wild(p, n.drop_first()))
    } else {
        n.len() > 0 && (p[0] == '?' || p[0] == n[0]) && wild(p.drop_first(), n.drop_first())
    }
}

/// Whether a name matches a pattern when both are in lower case.
pub open spec fn glob(pattern: Seq<char>, name: Seq<char>) -> bool {
    wild(text::lower_each(pattern), text::lower_each(name))
}

/// Whether the pattern from `pi` on matches the name from `ni` on.
spec fn at(p: Seq<char>, pi: int, n: Seq<char>, ni: int) -> bool {
    wild(p.skip(pi), n.skip(ni))
}

/// Whether the pattern from `pi` on matches some rest of the name that starts
/// at `ni` or later.
spec fn later(p: Seq<char>, pi: int, n: Seq<char>, ni: int) -> bool {
    exists|k: int| ni <= k <= n.len() && #[trigger] at(p, pi, n, k)
}

/// A star and what follows it match if what follows matches at a later place.
proof fn lemma_star(p: Seq<char>, pi: int, n: Seq<char>, ni: int)
    requires
        0 <= pi < p.len(),
        p[pi] == '*',
        0 <= ni <= n.len(),
    ensures
        at(p, pi, n, ni) == later(p, pi + 1, n, ni),
    decreases n.len() - ni,
{
    let rest = p.skip(pi);
    assert(rest[0] == '*');
    assert(rest.drop_first() =~= p.skip(pi + 1));
    if ni < n.len() {
        lemma_star(p, pi, n, ni + 1);
        assert(n.skip(ni).drop_first() =~= n.skip(ni + 1));
        if later(p, pi + 1, n, ni + 1) {
            let k = choose|k: int| ni + 1 <= k <= n.len() && #[trigger] at(p, pi + 1, n, k);
            assert(at(p, pi + 1, n, k));
        }
        if later(p, pi + 1, n, ni) {
            let k = choose|k: int| ni <= k <= n.len() && #[trigger] at(p, pi + 1, n, k);
            if k > ni {
                assert(at(p, pi + 1, n, k));
                assert(later(p, pi + 1, n, ni + 1));
            }
        }
    } else {
        assert(n.skip(ni).len() == 0);
    }
    if at(p, pi + 1, n, ni) {
        assert(later(p, pi + 1, n, ni));
    }
}

/// A stretch of pattern without stars takes as many characters as it has.
proof fn lemma_stretch(p: Seq<char>, from: int, to: int, n: Seq<char>, k: int)
    requires
        0 <= from <= to <= p.len(),
        0 <= k <= n.len(),
        forall|i: int| from <= i < to ==> p[i] != '*',
        at(p, from, n, k),
    ensures
        k + (to - from) <= n.len(),
        at(p, to, n, k + (to - from)),
    decreases to - from,
{
    if from < to {
        assert(p.skip(from)[0] == p[from]);
        assert(p.skip(from).drop_first() =~= p.skip(from + 1));
        assert(n.skip(k).drop_first() =~= n.skip(k + 1));
        lemma_stretch(p, from + 1, to, n, k + 1);
    }
}

/// One character of the name against one of the pattern.
proof fn lemma_char(p: Seq<char>, pi: int, n: Seq<char>, ni: int)
    requires
        0 <= pi <= p.len(),
        0 <= ni < n.len(),
        pi < p.len() ==> p[pi] != '*',
    ensures
        at(p, pi, n, ni) == (pi < p.len() && (p[pi] == '?' || p[pi] == n[ni]) && at(
            p,
            pi + 1,
            n,
            ni + 1,
        )),
{
    if pi < p.len() {
        assert(p.skip(pi)[0] == p[pi]);
        assert(n.skip(ni)[0] == n[ni]);
        assert(p.skip(pi).drop_first() =~= p.skip(pi + 1));
        assert(n.skip(ni).drop_first() =~= n.skip(ni + 1));
    } else {
        assert(p.skip(pi).len() == 0);
        assert(n.skip(ni).len() > 0);
    }
}

/// Another star makes the alternatives of the star before it needless.
proof fn lemma_new_star(p: Seq<char>, sp: int, sn: int, pi: int, n: Seq<char>, ni: int)
    requires
        0 <= sp < pi < p.len(),
        0 <= sn <= ni <= n.len(),
        pi - (sp + 1) == ni - sn,
        forall|i: int| sp < i < pi ==> p[i] != '*',
        p[pi] == '*',
        later(p, sp + 1, n, sn + 1),
    ensures
        later(p, pi + 1, n, ni),
{
    let k = choose|k: int| sn + 1 <= k <= n.len() && #[trigger] at(p, sp + 1, n, k);
    lemma_stretch(p, sp + 1, pi, n, k);
    let j = k + (pi - (sp + 1));
    lemma_star(p, pi, n, j);
    let m = choose|m: int| j <= m <= n.len() && #[trigger] at(p, pi + 1, n, m);
    assert(at(p, pi + 1, n, m));
}

/// At the end of the name the alternatives of the last star are all too long.
proof fn lemma_end(p: Seq<char>, sp: int, sn: int, pi: int, n: Seq<char>)
    requires
        0 <= sp < pi <= p.len(),
        0 <= sn <= n.len(),
        pi - (sp + 1) == n.len() - sn,
        forall|i: int| sp < i < pi ==> p[i] != '*',
    ensures
        !later(p, sp + 1, n, sn + 1),
{
    if later(p, sp + 1, n, sn + 1) {
        let k = choose|k: int| sn + 1 <= k <= n.len() && #[trigger] at(p, sp + 1, n, k);
        lemma_stretch(p, sp + 1, pi, n, k);
    }
}

/// A later place is this one or one after it.
proof fn lemma_later(p: Seq<char>, pi: int, n: Seq<char>, ni: int)
    requires
        0 <= ni <= n.len(),
    ensures
        later(p, pi, n, ni) == (at(p, pi, n, ni) || later(p, pi, n, ni + 1)),
{
    if later(p, pi, n, ni) {
        let k = choose|k: int| ni <= k <= n.len() && #[trigger] at(p, pi, n, k);
        assert(at(p, pi, n, k));
    }
    if later(p, pi, n, ni + 1) {
        let k = choose|k: int| ni + 1 <= k <= n.len() && #[trigger] at(p, pi, n, k);
        assert(at(p, pi, n, k));
    }
}

/// The scan of a name against a pattern, with a step back to the last star
/// where they part.
fn scan(p: &Vec<char>, n: &Vec<char>) -> (r: bool)
    ensures
        r == wild(p@, n@),
{
    let mut pi: usize = 0;
    let mut ni: usize = 0;
    let mut star: Option<usize> = None;
    let mut star_n: usize = 0;
    proof {
        assert(p@.skip(0) =~= p@);
        assert(n@.skip(0) =~= n@);
    }
    while ni < n.len()
        invariant
            pi <= p@.len(),
            ni <= n@.len(),
            star_n <= ni,
            wild(p@, n@) == (at(p@, pi as int, n@, ni as int) || (star is Some && later(
                p@,
                star->0 + 1,
                n@,
                star_n + 1,
            ))),
            star is Some ==> star->0 < pi && pi - (star->0 + 1) == ni - star_n,
            star is Some ==> forall|i: int| star->0 < i < pi ==> p@[i] != '*',
        decreases
                (if star is Some {
                    n@.len() - star_n
                } else {
                    n@.len() as int + 1
                }),
                p@.len() - pi + n@.len() - ni,
    {
        if pi < p.len() && p[pi] == '*' {
            proof {
                lemma_star(p@, pi as int, n@, ni as int);
                lemma_later(p@, pi + 1, n@, ni as int);
                if star is Some && later(p@, star->0 + 1, n@, star_n + 1) {
                    lemma_new_star(
                        p@,
                        star->0 as int,
                        star_n as int,
                        pi as int,
                        n@,
                        ni as int,
                    );
                }
            }
            star = Some(pi);
            star_n = ni;
            pi = pi + 1;
        } else {
            proof {
                lemma_char(p@, pi as int, n@, ni as int);
            }
            if pi < p.len() && (p[pi] == '?' || p[pi] == n[ni]) {
                pi = pi + 1;
                ni = ni + 1;
            } else if let Some(sp) = star {
                proof {
                    lemma_later(p@, sp + 1, n@, star_n + 1);
                }
                pi = sp + 1;
                star_n = star_n + 1;
                ni = star_n;
            } else {
                return false;
            }
        }
    }
    proof {
        if star is Some {
            lemma_end(p@, star->0 as int, star_n as int, pi as int, n@);
        }
        assert(n@.skip(ni as int).len() == 0);
    }
    while pi < p.len() && p[pi] == '*'
        invariant
            pi <= p@.len(),
            ni == n@.len(),
            wild(p@, n@) == at(p@, pi as int, n@, ni as int),
        decreases p@.len() - pi,
    {
        proof {
            assert(p@.skip(pi as int)[0] == '*');
            assert(p@.skip(pi as int).drop_first() =~= p@.skip(pi + 1));
            assert(n@.skip(ni as int).len() == 0);
        }
        pi = pi + 1;
    }
    proof {
        assert(n@.skip(ni as int).len() == 0);
        if pi < p@.len() {
            assert(p@.skip(pi as int)[0] == p@[pi as int]);
        }
    }
    pi == p.len()
}

/// Whether `name` matches the glob `pattern`, whatever the case of the letters.
///
/// `*.jpg` matches `a.jpg` and not `a.jpgx`, and `temp` does not match
/// `temporary`: for a part of a name, write `*temp*`.
pub fn glob_match(pattern: &str, name: &str) -> (r: bool)
    ensures
        r == glob(pattern@, name@),
        text::all_ascii(pattern@) && text::all_ascii(name@) ==> r == wild(
            text::ascii_lower_text(pattern@),
            text::ascii_lower_text(name@),
        ),
{
    let p = text::lowered_each(pattern);
    let n = text::lowered_each(name);
    scan(&p, &n)
}

/// The pattern of one star matches every name.
pub proof fn law_star_matches_all(n: Seq<char>)
    ensures
        wild(seq!['*'], n),
    decreases n.len(),
{
    if n.len() > 0 {
        law_star_matches_all(n.drop_first());
    }
    assert(seq!['*'].drop_first() =~= Seq::<char>::empty());
    if n.len() == 0 {
        assert(wild(seq!['*'].drop_first(), n));
    }
}

/// A pattern without wildcards matches itself and nothing else: patterns are
/// anchored at both ends.
pub proof fn law_plain_is_equality(p: Seq<char>, n: Seq<char>)
    requires
        forall|i: int| 0 <= i < p.len() ==> p[i] != '*' && p[i] != '?',
    ensures
        wild(p, n) == (p == n),
    decreases p.len(),
{
    if p.len() == 0 {
        if n.len() == 0 {
            assert(p =~= n);
        }
    } else if n.len() > 0 {
        law_plain_is_equality(p.drop_first(), n.drop_first());
        if p[0] == n[0] && p.drop_first() == n.drop_first() {
            assert(p =~= seq![p[0]] + p.drop_first());
            assert(n =~= seq![n[0]] + n.drop_first());
        }
    }
}

/// A question mark matches exactly one character.
pub proof fn law_question_mark(n: Seq<char>)
    ensures
        wild(seq!['?'], n) == (n.len() == 1),
{
    assert(seq!['?'].drop_first() =~= Seq::<char>::empty());
    if n.len() > 0 {
        assert(wild(seq!['?'].drop_first(), n.drop_first()) == (n.drop_first().len() == 0));
    }
}

/// Letter case does not matter, neither in a pattern nor in a name.
pub proof fn law_case(p: Seq<char>, q: Seq<char>, a: Seq<char>, b: Seq<char>)
    requires
        text::lower_each(p) == text::lower_each(q),
        text::lower_each(a) == text::lower_each(b),
    ensures
        glob(p, a) == glob(q, b),
{
}

/// A text without wildcards and a star after it match what starts with the text.
proof fn lemma_prefix(s: Seq<char>, n: Seq<char>)
    requires
        forall|i: int| 0 <= i < s.len() ==> s[i] != '*' && s[i] != '?',
    ensures
        wild(s.push('*'), n) == s.is_prefix_of(n),
    decreases s.len(),
{
    let p = s.push('*');
    if s.len() == 0 {
        assert(p =~= seq!['*']);
        law_star_matches_all(n);
        assert(s =~= n.subrange(0, 0));
    } else {
        assert(p[0] == s[0]);
        assert(p.drop_first() =~= s.drop_first().push('*'));
        if n.len() > 0 {
            let rest = s.drop_first();
            lemma_prefix(rest, n.drop_first());
            if s.is_prefix_of(n) {
                assert(n[0] == n.subrange(0, s.len() as int)[0]);
                assert(rest =~= n.drop_first().subrange(0, rest.len() as int)) by {
                    assert forall|i: int| 0 <= i < rest.len() implies #[trigger] rest[i]
                        == n.drop_first()[i] by {
                        assert(s[i + 1] == n.subrange(0, s.len() as int)[i + 1]);
                    }
                }
            } else if s[0] == n[0] && rest.is_prefix_of(n.drop_first()) {
                assert(s =~= n.subrange(0, s.len() as int)) by {
                    assert forall|i: int| 0 <= i < s.len() implies #[trigger] s[i] == n[i] by {
                        if i > 0 {
                            assert(rest[i - 1] == n.drop_first().subrange(0, rest.len() as int)[i
                                - 1]);
                        }
                    }
                }
            }
        }
    }
}

/// A text between stars matches the names that the text occurs in.
pub proof fn law_substring(s: Seq<char>, n: Seq<char>)
    requires
        forall|i: int| 0 <= i < s.len() ==> s[i] != '*' && s[i] != '?',
    ensures
        wild(seq!['*'] + s.push('*'), n) == exists|k: int|
            0 <= k <= n.len() && #[trigger] s.is_prefix_of(n.skip(k)),
{
    let p = seq!['*'] + s.push('*');
    assert(p.skip(0) =~= p);
    assert(n.skip(0) =~= n);
    assert(p.skip(1) =~= s.push('*'));
    lemma_star(p, 0, n, 0);
    assert forall|k: int| 0 <= k <= n.len() implies #[trigger] at(p, 1, n, k) == s.is_prefix_of(
        n.skip(k),
    ) by {
        lemma_prefix(s, n.skip(k));
    }
    if later(p, 1, n, 0) {
        let k = choose|k: int| 0 <= k <= n.len() && #[trigger] at(p, 1, n, k);
        assert(s.is_prefix_of(n.skip(k)));
    }
    if exists|k: int| 0 <= k <= n.len() && #[trigger] s.is_prefix_of(n.skip(k)) {
        let k = choose|k: int| 0 <= k <= n.len() && #[trigger] s.is_prefix_of(n.skip(k));
        assert(at(p, 1, n, k));
    }
}

/// A star before a text without wildcards matches what ends in the text.
pub proof fn law_suffix(s: Seq<char>, n: Seq<char>)
    requires
        forall|i: int| 0 <= i < s.len() ==> s[i] != '*' && s[i] != '?',
    ensures
        wild(seq!['*'] + s, n) <==> s.len() <= n.len() && n.skip(n.len() - s.len()) == s,
{
    let p = seq!['*'] + s;
    assert(p.skip(0) =~= p);
    assert(n.skip(0) =~= n);
    assert(p.skip(1) =~= s);
    lemma_star(p, 0, n, 0);
    assert forall|k: int| 0 <= k <= n.len() implies #[trigger] at(p, 1, n, k) == (s == n.skip(
        k,
    )) by {
        law_plain_is_equality(s, n.skip(k));
    }
    if later(p, 1, n, 0) {
        let k = choose|k: int| 0 <= k <= n.len() && #[trigger] at(p, 1, n, k);
        assert(k == n.len() - s.len());
    }
    if s.len() <= n.len() && n.skip(n.len() - s.len()) == s {
        assert(at(p, 1, n, n.len() - s.len()));
    }
}

proof fn lemma_ascii_each(s: Seq<char>)
    requires
        text::all_ascii(s),
    ensures
        text::lower_each(s) == text::ascii_lower_text(s),
    decreases s.len(),
{
    if s.len() > 0 {
        assert forall|i: int| 0 <= i < s.drop_last().len() implies (#[trigger] s.drop_last()[i])
            < '\u{80}' by {
            assert(s.drop_last()[i] == s[i]);
        }
        lemma_ascii_each(s.drop_last());
        assert(s.last() == s[s.len() - 1]);
        assert(text::lower_each(s) =~= text::ascii_lower_text(s));
    } else {
        assert(text::lower_each(s) =~= text::ascii_lower_text(s));
    }
}

/// Of ASCII letters the case does not matter, neither in a pattern nor in a name.
pub proof fn law_ascii_case(p: Seq<char>, q: Seq<char>, a: Seq<char>, b: Seq<char>)
    requires
        text::all_ascii(p) && text::all_ascii(q) && text::all_ascii(a) && text::all_ascii(b),
        text::same_ascii(p, q),
        text::same_ascii(a, b),
    ensures
        glob(p, a) == glob(q, b),
{
    lemma_ascii_each(p);
    lemma_ascii_each(q);
    lemma_ascii_each(a);
    lemma_ascii_each(b);
    assert(text::ascii_lower_text(p) =~= text::ascii_lower_text(q));
    assert(text::ascii_lower_text(a) =~= text::ascii_lower_text(b));
}

/// A pattern of ASCII letters without wildcards matches the names that are equal to
/// it but for the case of letters.
pub proof fn law_plain_names(p: Seq<char>, n: Seq<char>)
    requires
        text::all_ascii(p) && text::all_ascii(n),
        !p.contains('*') && !p.contains('?'),
    ensures
        glob(p, n) <==> text::same_ascii(p, n),
{
    lemma_ascii_each(p);
    lemma_ascii_each(n);
    let l = text::ascii_lower_text(p);
    let m = text::ascii_lower_text(n);
    assert forall|i: int| 0 <= i < l.len() implies l[i] != '*' && l[i] != '?' by {
        assert(p.contains(p[i]));
    }
    law_plain_is_equality(l, m);
    if l == m {
        assert(p.len() == n.len()) by {
            assert(l.len() == m.len());
        }
        assert forall|i: int| 0 <= i < p.len() implies text::ascii_lower(#[trigger] p[i])
            == text::ascii_lower(n[i]) by {
            assert(l[i] == m[i]);
        }
    }
    if text::same_ascii(p, n) {
        assert(l =~= m);
    }
}

} // verus!
