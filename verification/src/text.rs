//! Text helpers: paths, characters and the std functions behind them.

use vstd::prelude::*;
use vstd::string::*;

verus! {

/// `String::push` appends one character.
pub assume_specification[ String::push ](s: &mut String, c: char)
    ensures
        final(s)@ == old(s)@.push(c),
;

/// `std::str::from_utf8`: a text for exactly the bytes that are UTF-8, holding
/// the characters that the bytes encode.
#[verifier::external_body]
pub(crate) fn from_utf8(data: &[u8]) -> (r: Option<&str>)
    ensures
        match r {
            Some(s) => vstd::utf8::valid_utf8(data@) && s@ == vstd::utf8::decode_utf8(data@),
            None => !vstd::utf8::valid_utf8(data@),
        },
{
    std::str::from_utf8(data).ok()
}

/// A decimal digit.
pub open spec fn digit(n: int) -> char {
    (48 + n) as char
}

/// A number in decimal.
pub open spec fn dec(n: nat) -> Seq<char>
    decreases n,
{
    if n < 10 {
        seq![digit(n as int)]
    } else {
        dec(n / 10).push(digit((n % 10) as int))
    }
}

/// A text brought to a width by leading fill characters.
pub open spec fn filled(s: Seq<char>, width: nat, fill: char) -> Seq<char> {
    if s.len() >= width {
        s
    } else {
        Seq::new((width - s.len()) as nat, |i: int| fill) + s
    }
}

/// A number in decimal with leading zeros up to a width.
pub open spec fn dec0(n: nat, width: nat) -> Seq<char> {
    filled(dec(n), width, '0')
}

/// Appends a number in decimal.
pub fn push_decimal(s: &mut String, n: u64)
    ensures
        final(s)@ == old(s)@ + dec(n as nat),
    decreases n,
{
    let ghost before = s@;
    if n >= 10 {
        push_decimal(s, n / 10);
    }
    let d: u8 = (n % 10) as u8;
    s.push((48 + d) as char);
    proof {
        assert((48 + d) as u8 as char == digit((n % 10) as int));
        assert(s@ =~= before + dec(n as nat));
    }
}

/// How many digits a number has.
fn decimal_len(n: u64) -> (len: usize)
    ensures
        len == dec(n as nat).len(),
        1 <= len <= 20,
{
    let mut len: usize = 1;
    let mut rest: u64 = n;
    while rest >= 10
        invariant
            dec(n as nat).len() == dec(rest as nat).len() + len - 1,
            1 <= len <= 20,
            len == 1 ==> rest <= 18446744073709551615,
            len == 2 ==> rest <= 1844674407370955161,
            len == 3 ==> rest <= 184467440737095516,
            len == 4 ==> rest <= 18446744073709551,
            len == 5 ==> rest <= 1844674407370955,
            len == 6 ==> rest <= 184467440737095,
            len == 7 ==> rest <= 18446744073709,
            len == 8 ==> rest <= 1844674407370,
            len == 9 ==> rest <= 184467440737,
            len == 10 ==> rest <= 18446744073,
            len == 11 ==> rest <= 1844674407,
            len == 12 ==> rest <= 184467440,
            len == 13 ==> rest <= 18446744,
            len == 14 ==> rest <= 1844674,
            len == 15 ==> rest <= 184467,
            len == 16 ==> rest <= 18446,
            len == 17 ==> rest <= 1844,
            len == 18 ==> rest <= 184,
            len == 19 ==> rest <= 18,
            len == 20 ==> rest <= 1,
        decreases rest,
    {
        rest = rest / 10;
        len = len + 1;
    }
    len
}

/// Appends a number in decimal with leading zeros up to a width.
pub fn push_padded(s: &mut String, n: u64, width: usize)
    ensures
        final(s)@ == old(s)@ + dec0(n as nat, width as nat),
{
    let ghost before = s@;
    let len: usize = decimal_len(n);
    let mut i: usize = len;
    let ghost mut zeros: Seq<char> = Seq::empty();
    proof {
        assert(s@ =~= before + zeros);
    }
    while i < width
        invariant
            len == dec(n as nat).len(),
            len <= i,
            len <= width ==> i <= width,
            len > width ==> i == len,
            s@ == before + zeros,
            zeros == Seq::new((i - len) as nat, |j: int| '0'),
        decreases width - i,
    {
        s.push('0');
        i = i + 1;
        proof {
            zeros = zeros.push('0');
            assert(zeros =~= Seq::new((i - len) as nat, |j: int| '0'));
            assert(s@ =~= before + zeros);
        }
    }
    push_decimal(s, n);
    proof {
        assert(s@ =~= before + dec0(n as nat, width as nat));
    }
}

/// The characters of a text.
pub fn chars_of(s: &str) -> (r: Vec<char>)
    ensures
        r@ == s@,
{
    let mut r: Vec<char> = Vec::new();
    for c in it: s.chars()
        invariant
            it.seq() == s@,
            r@ == s@.take(it.index()),
    {
        r.push(c);
        proof {
            assert(r@ =~= s@.take(it.index() + 1));
        }
    }
    proof {
        assert(s@.take(s@.len() as int) =~= s@);
    }
    r
}

/// The text of characters.
pub fn text_of(chars: &Vec<char>) -> (s: String)
    ensures
        s@ == chars@,
{
    let mut s: String = String::new();
    for i in 0..chars.len()
        invariant
            s@ == chars@.take(i as int),
    {
        s.push(chars[i]);
        proof {
            assert(s@ =~= chars@.take(i + 1));
        }
    }
    proof {
        assert(chars@.take(chars@.len() as int) =~= chars@);
    }
    s
}

/// The characters from `from` up to `to`.
pub fn part(chars: &Vec<char>, from: usize, to: usize) -> (r: Vec<char>)
    requires
        from <= to <= chars@.len(),
    ensures
        r@ == chars@.subrange(from as int, to as int),
{
    let mut r: Vec<char> = Vec::new();
    for i in from..to
        invariant
            from <= to <= chars@.len(),
            r@ == chars@.subrange(from as int, i as int),
    {
        r.push(chars[i]);
        proof {
            assert(r@ =~= chars@.subrange(from as int, i + 1));
        }
    }
    r
}

/// Whether a character is white space in the sense of Unicode.
pub open spec fn is_space(c: char) -> bool {
    let n = c as u32;
    ||| 9 <= n <= 13
    ||| n == 0x20
    ||| n == 0x85
    ||| n == 0xa0
    ||| n == 0x1680
    ||| 0x2000 <= n <= 0x200a
    ||| n == 0x2028
    ||| n == 0x2029
    ||| n == 0x202f
    ||| n == 0x205f
    ||| n == 0x3000
}

/// Whether a character is white space.
pub fn space(c: char) -> (r: bool)
    ensures
        r == is_space(c),
{
    let n: u32 = c as u32;
    (9 <= n && n <= 13) || n == 0x20 || n == 0x85 || n == 0xa0 || n == 0x1680 || (0x2000 <= n && n
        <= 0x200a) || n == 0x2028 || n == 0x2029 || n == 0x202f || n == 0x205f || n == 0x3000
}

/// A text without the white space at its start.
pub open spec fn trim_start(s: Seq<char>) -> Seq<char>
    decreases s.len(),
{
    if s.len() > 0 && is_space(s[0]) {
        trim_start(s.drop_first())
    } else {
        s
    }
}

/// A text without the white space at its end.
pub open spec fn trim_end(s: Seq<char>) -> Seq<char>
    decreases s.len(),
{
    if s.len() > 0 && is_space(s.last()) {
        trim_end(s.drop_last())
    } else {
        s
    }
}

/// A text without the white space around it.
pub open spec fn trim(s: Seq<char>) -> Seq<char> {
    trim_end(trim_start(s))
}

/// How many characters at the start of a text are white space.
pub fn leading_spaces(chars: &Vec<char>) -> (n: usize)
    ensures
        n <= chars@.len(),
        trim_start(chars@) == chars@.skip(n as int),
        forall|i: int| 0 <= i < n ==> is_space(#[trigger] chars@[i]),
{
    let mut n: usize = 0;
    proof {
        assert(chars@.skip(0) =~= chars@);
    }
    while n < chars.len() && space(chars[n])
        invariant
            n <= chars@.len(),
            trim_start(chars@) == trim_start(chars@.skip(n as int)),
            forall|i: int| 0 <= i < n ==> is_space(#[trigger] chars@[i]),
        decreases chars@.len() - n,
    {
        proof {
            assert(chars@.skip(n as int)[0] == chars@[n as int]);
            assert(chars@.skip(n as int).drop_first() =~= chars@.skip(n + 1));
        }
        n = n + 1;
    }
    proof {
        if n < chars@.len() {
            assert(chars@.skip(n as int)[0] == chars@[n as int]);
        }
    }
    n
}

/// A text without the white space at its start.
pub fn trimmed_start(chars: &Vec<char>) -> (r: Vec<char>)
    ensures
        r@ == trim_start(chars@),
{
    let n: usize = leading_spaces(chars);
    proof {
        assert(chars@.skip(n as int) =~= chars@.subrange(n as int, chars@.len() as int));
    }
    part(chars, n, chars.len())
}

/// A text without the white space around it.
pub fn trimmed(chars: &Vec<char>) -> (r: Vec<char>)
    ensures
        r@ == trim(chars@),
{
    let mut r = trimmed_start(chars);
    let ghost all = r@;
    while r.len() > 0 && space(r[r.len() - 1])
        invariant
            trim_end(all) == trim_end(r@),
        decreases r@.len(),
    {
        let _ = r.pop();
    }
    r
}

/// An ASCII letter in lower case; any other character as it is.
pub open spec fn ascii_lower(c: char) -> char {
    if 'A' <= c <= 'Z' {
        ((c as u32) + 32) as char
    } else {
        c
    }
}

/// An ASCII letter in lower case; any other character as it is.
pub fn to_ascii_lower(c: char) -> (r: char)
    ensures
        r == ascii_lower(c),
{
    if 'A' <= c && c <= 'Z' {
        let n: u8 = c as u8;
        (n + 32) as char
    } else {
        c
    }
}

/// Whether two texts are equal but for the case of ASCII letters.
pub open spec fn same_ascii(a: Seq<char>, b: Seq<char>) -> bool {
    &&& a.len() == b.len()
    &&& forall|i: int|
        0 <= i < a.len() ==> ascii_lower(#[trigger] a[i]) == ascii_lower(b[i])
}

/// Whether two texts are equal but for the case of ASCII letters.
pub fn eq_ignore_ascii(a: &Vec<char>, b: &Vec<char>) -> (r: bool)
    ensures
        r == same_ascii(a@, b@),
{
    if a.len() != b.len() {
        return false;
    }
    for i in 0..a.len()
        invariant
            a@.len() == b@.len(),
            forall|j: int| 0 <= j < i ==> ascii_lower(#[trigger] a@[j]) == ascii_lower(b@[j]),
    {
        if to_ascii_lower(a[i]) != to_ascii_lower(b[i]) {
            proof {
                assert(ascii_lower(a@[i as int]) != ascii_lower(b@[i as int]));
            }
            return false;
        }
    }
    true
}

/// What `char::to_lowercase` makes of a character.
pub uninterp spec fn lower_char(c: char) -> Seq<char>;

/// What `str::to_lowercase` makes of a text.
pub uninterp spec fn lower_text(s: Seq<char>) -> Seq<char>;

/// Whether every character of a text is ASCII.
pub open spec fn all_ascii(s: Seq<char>) -> bool {
    forall|i: int| 0 <= i < s.len() ==> (#[trigger] s[i]) < '\u{80}'
}

/// A text with its ASCII letters in lower case.
pub open spec fn ascii_lower_text(s: Seq<char>) -> Seq<char> {
    Seq::new(s.len(), |i: int| ascii_lower(s[i]))
}

/// `char::to_lowercase`: the Unicode lower-case mapping of the character, which
/// for an ASCII character is its ASCII lower case.
#[verifier::external_body]
fn lower_of(c: char) -> (r: String)
    ensures
        r@ == lower_char(c),
        c < '\u{80}' ==> r@ == seq![ascii_lower(c)],
{
    c.to_lowercase().to_string()
}

/// `str::to_lowercase`: the Unicode lower-case mapping of the text, which for an
/// ASCII text is its ASCII lower case.
#[verifier::external_body]
fn lowercase(s: &str) -> (r: String)
    ensures
        r@ == lower_text(s@),
        all_ascii(s@) ==> r@ == ascii_lower_text(s@),
{
    s.to_lowercase()
}

/// A text in lower case: ASCII letters one by one, any other text by its Unicode
/// mapping.
pub open spec fn lower(s: Seq<char>) -> Seq<char> {
    if all_ascii(s) {
        ascii_lower_text(s)
    } else {
        lower_text(s)
    }
}

/// A character in lower case.
pub open spec fn lower_one(c: char) -> Seq<char> {
    if c >= '\u{80}' {
        lower_char(c)
    } else {
        seq![ascii_lower(c)]
    }
}

/// A text in lower case.
pub fn lowered(chars: &Vec<char>) -> (r: Vec<char>)
    ensures
        r@ == lower(chars@),
        r@ == lower_text(chars@),
        all_ascii(chars@) ==> r@ == ascii_lower_text(chars@),
{
    let s = text_of(chars);
    chars_of(lowercase(s.as_str()).as_str())
}

/// The lower-case mappings of the characters of a text, one after another.
pub open spec fn lower_each(s: Seq<char>) -> Seq<char>
    decreases s.len(),
{
    if s.len() == 0 {
        Seq::empty()
    } else {
        lower_each(s.drop_last()) + lower_one(s.last())
    }
}

/// The lower-case mappings of the characters of a text, one after another.
pub fn lowered_each(s: &str) -> (r: Vec<char>)
    ensures
        r@ == lower_each(s@),
        all_ascii(s@) ==> r@ == ascii_lower_text(s@),
{
    let chars = chars_of(s);
    let mut r: Vec<char> = Vec::new();
    for i in 0..chars.len()
        invariant
            chars@ == s@,
            r@ == lower_each(chars@.take(i as int)),
            all_ascii(s@) ==> r@ == ascii_lower_text(chars@.take(i as int)),
    {
        let low = chars_of(lower_of(chars[i]).as_str());
        for k in 0..low.len()
            invariant
                r@ == lower_each(chars@.take(i as int)) + low@.take(k as int),
        {
            r.push(low[k]);
            proof {
                assert(low@.take(k + 1) =~= low@.take(k as int).push(low@[k as int]));
                assert(r@ =~= lower_each(chars@.take(i as int)) + low@.take(k + 1));
            }
        }
        proof {
            assert(low@.take(low@.len() as int) =~= low@);
            assert(chars@.take(i + 1).drop_last() =~= chars@.take(i as int));
            if all_ascii(s@) {
                assert(chars@[i as int] < '\u{80}');
                assert(r@ =~= ascii_lower_text(chars@.take(i + 1)));
            }
        }
    }
    proof {
        assert(chars@.take(chars@.len() as int) =~= chars@);
    }
    r
}

/// Whether two lists of characters are equal.
pub fn same(a: &Vec<char>, b: &Vec<char>) -> (r: bool)
    ensures
        r == (a@ == b@),
{
    if a.len() != b.len() {
        return false;
    }
    for i in 0..a.len()
        invariant
            a@.len() == b@.len(),
            forall|j: int| 0 <= j < i ==> a@[j] == b@[j],
    {
        if a[i] != b[i] {
            return false;
        }
    }
    proof {
        assert(a@ =~= b@);
    }
    true
}

/// Whether a list of characters is the given text.
pub fn is_text(a: &Vec<char>, b: &str) -> (r: bool)
    ensures
        r == (a@ == b@),
{
    same(a, &chars_of(b))
}

/// Whether two texts are the same.
pub fn equals(a: &str, b: &str) -> (r: bool)
    ensures
        r == (a@ == b@),
{
    is_text(&chars_of(a), b)
}

/// Whether a text starts with another.
pub open spec fn begins(s: Seq<char>, start: Seq<char>) -> bool {
    start.len() <= s.len() && s.take(start.len() as int) == start
}

/// Whether a text starts with another.
pub fn starts(s: &Vec<char>, start: &Vec<char>) -> (r: bool)
    ensures
        r == begins(s@, start@),
{
    if start.len() > s.len() {
        return false;
    }
    for i in 0..start.len()
        invariant
            start@.len() <= s@.len(),
            forall|j: int| 0 <= j < i ==> s@[j] == start@[j],
    {
        if s[i] != start[i] {
            proof {
                assert(s@.take(start@.len() as int)[i as int] == s@[i as int]);
            }
            return false;
        }
    }
    proof {
        assert(s@.take(start@.len() as int) =~= start@);
    }
    true
}

/// How many bytes UTF-8 takes for a character.
pub open spec fn width(c: char) -> nat {
    let n = c as u32;
    if n < 0x80 {
        1
    } else if n < 0x800 {
        2
    } else if n < 0x1_0000 {
        3
    } else {
        4
    }
}

/// How many bytes UTF-8 takes for a text.
pub open spec fn byte_len(s: Seq<char>) -> nat
    decreases s.len(),
{
    if s.len() == 0 {
        0
    } else {
        width(s[0]) + byte_len(s.drop_first())
    }
}

/// The byte length is the length of the UTF-8 encoding.
pub proof fn lemma_byte_len(s: Seq<char>)
    ensures
        byte_len(s) == vstd::utf8::encode_utf8(s).len(),
    decreases s.len(),
{
    if s.len() > 0 {
        lemma_byte_len(s.drop_first());
        let n = s[0] as u32;
        vstd::utf8::char_is_scalar(s[0]);
        assert(vstd::utf8::encode_scalar(n).len() == width(s[0]));
        assert(vstd::utf8::encode_utf8(s) == vstd::utf8::encode_scalar(n)
            + vstd::utf8::encode_utf8(s.drop_first()));
    }
}

/// The byte length of joined texts is the sum of theirs.
pub proof fn lemma_byte_len_concat(a: Seq<char>, b: Seq<char>)
    ensures
        byte_len(a + b) == byte_len(a) + byte_len(b),
    decreases a.len(),
{
    if a.len() == 0 {
        assert(a + b =~= b);
    } else {
        assert((a + b).drop_first() =~= a.drop_first() + b);
        lemma_byte_len_concat(a.drop_first(), b);
    }
}

/// How many bytes UTF-8 takes for a character.
pub fn char_width(c: char) -> (n: usize)
    ensures
        n == width(c),
{
    let v: u32 = c as u32;
    if v < 0x80 {
        1
    } else if v < 0x800 {
        2
    } else if v < 0x1_0000 {
        3
    } else {
        4
    }
}

/// How many bytes UTF-8 takes for the characters from `from` up to `to`.
pub fn width_of(chars: &Vec<char>, from: usize, to: usize) -> (n: usize)
    requires
        from <= to <= chars@.len(),
        byte_len(chars@) <= usize::MAX,
    ensures
        n == byte_len(chars@.subrange(from as int, to as int)),
{
    let mut n: usize = 0;
    for i in from..to
        invariant
            from <= to <= chars@.len(),
            byte_len(chars@) <= usize::MAX,
            n == byte_len(chars@.subrange(from as int, i as int)),
    {
        proof {
            let a = chars@.subrange(from as int, i as int);
            let c = seq![chars@[i as int]];
            assert(chars@.subrange(from as int, i + 1) =~= a + c);
            lemma_byte_len_concat(a, c);
            assert(c.drop_first() =~= Seq::<char>::empty());
            assert(byte_len(c.drop_first()) == 0);
            assert(byte_len(c) == width(c[0]));
            let before = chars@.take(from as int);
            let rest = chars@.skip(i + 1);
            assert(chars@ =~= before + (chars@.subrange(from as int, i + 1) + rest));
            lemma_byte_len_concat(before, chars@.subrange(from as int, i + 1) + rest);
            lemma_byte_len_concat(chars@.subrange(from as int, i + 1), rest);
        }
        n = n + char_width(chars[i]);
    }
    n
}

/// The characters of a text, whose byte length is that of a value in memory.
pub fn measured_chars(s: &str) -> (r: Vec<char>)
    ensures
        r@ == s@,
        byte_len(r@) <= usize::MAX,
{
    let n: usize = s.as_bytes().len();
    proof {
        lemma_byte_len(s@);
        assert(n == s.spec_bytes().len());
    }
    chars_of(s)
}

/// What follows the first `n` bytes of a text, where they end between two
/// characters.
pub open spec fn after_bytes(s: Seq<char>, n: nat) -> Option<Seq<char>>
    decreases s.len(),
{
    if n == 0 {
        Some(s)
    } else if s.len() == 0 || width(s[0]) > n {
        None
    } else {
        after_bytes(s.drop_first(), (n - width(s[0])) as nat)
    }
}

/// What follows the first `n` bytes of a text, where they end between two
/// characters.
pub fn skip_bytes(chars: &Vec<char>, n: usize) -> (r: Option<Vec<char>>)
    ensures
        match r {
            Some(v) => after_bytes(chars@, n as nat) == Some(v@),
            None => after_bytes(chars@, n as nat) is None,
        },
{
    let mut left: usize = n;
    let mut i: usize = 0;
    proof {
        assert(chars@.skip(0) =~= chars@);
    }
    while left > 0
        invariant
            i <= chars@.len(),
            after_bytes(chars@, n as nat) == after_bytes(chars@.skip(i as int), left as nat),
        decreases left,
    {
        if i >= chars.len() {
            return None;
        }
        let w: usize = char_width(chars[i]);
        proof {
            assert(chars@.skip(i as int)[0] == chars@[i as int]);
            assert(chars@.skip(i as int).drop_first() =~= chars@.skip(i + 1));
        }
        if w > left {
            return None;
        }
        left = left - w;
        i = i + 1;
    }
    let r = part(chars, i, chars.len());
    proof {
        assert(r@ =~= chars@.skip(i as int));
    }
    Some(r)
}

/// The part of a text from one byte up to another; empty where these are not
/// between characters, or not in this order.
pub open spec fn byte_slice(s: Seq<char>, start: nat, end: nat) -> Seq<char> {
    match (after_bytes(s, start), after_bytes(s, end)) {
        (Some(a), Some(b)) => if start <= end && b.len() <= a.len() {
            a.take(a.len() - b.len())
        } else {
            Seq::empty()
        },
        _ => Seq::empty(),
    }
}

/// The part of a text from one byte up to another.
pub fn slice_bytes(s: &str, start: usize, end: usize) -> (r: String)
    ensures
        r@ == byte_slice(s@, start as nat, end as nat),
{
    let chars = chars_of(s);
    let a = skip_bytes(&chars, start);
    let b = skip_bytes(&chars, end);
    if let (Some(a), Some(b)) = (a, b) {
        if start <= end && b.len() <= a.len() {
            let r = part(&a, 0, a.len() - b.len());
            proof {
                assert(r@ =~= a@.take(a@.len() - b@.len()));
            }
            return text_of(&r);
        }
    }
    let none = String::new();
    proof {
        assert(none@ =~= Seq::empty());
    }
    none
}

/// The position of the first `c` in a text, or its length.
pub open spec fn find(s: Seq<char>, c: char) -> nat
    decreases s.len(),
{
    if s.len() == 0 || s[0] == c {
        0
    } else {
        1 + find(s.drop_first(), c)
    }
}

pub proof fn lemma_find(s: Seq<char>, c: char)
    ensures
        find(s, c) <= s.len(),
        forall|i: int| 0 <= i < find(s, c) ==> #[trigger] s[i] != c,
        find(s, c) < s.len() ==> s[find(s, c) as int] == c,
    decreases s.len(),
{
    if s.len() > 0 && s[0] != c {
        let rest = s.drop_first();
        lemma_find(rest, c);
        assert forall|i: int| 0 <= i < find(s, c) implies #[trigger] s[i] != c by {
            if i > 0 {
                assert(rest[i - 1] == s[i]);
            }
        }
    }
}

/// The first position from `from` on that holds `c`, or the end.
pub fn find_from(s: &Vec<char>, from: usize, c: char) -> (n: usize)
    requires
        from <= s@.len(),
    ensures
        n == from + find(s@.skip(from as int), c),
        from <= n <= s@.len(),
{
    let mut n: usize = from;
    while n < s.len() && s[n] != c
        invariant
            from <= n <= s@.len(),
            from + find(s@.skip(from as int), c) == n + find(s@.skip(n as int), c),
        decreases s@.len() - n,
    {
        proof {
            assert(s@.skip(n as int)[0] == s@[n as int]);
            assert(s@.skip(n as int).drop_first() =~= s@.skip(n + 1));
        }
        n = n + 1;
    }
    proof {
        if n < s@.len() {
            assert(s@.skip(n as int)[0] == s@[n as int]);
        }
    }
    n
}

/// Texts in mathematical terms.
pub open spec fn texts(v: Seq<String>) -> Seq<Seq<char>> {
    Seq::new(v.len(), |i: int| v[i]@)
}

/// A path with one more component: an absolute component replaces the path,
/// any other is set apart by one slash.
pub open spec fn joined(base: Seq<char>, part: Seq<char>) -> Seq<char> {
    if part.len() > 0 && part[0] == '/' {
        part
    } else if base.len() == 0 || base.last() == '/' {
        base + part
    } else {
        base.push('/') + part
    }
}

/// The path made of the given components.
pub open spec fn join_all(parts: Seq<Seq<char>>) -> Seq<char>
    decreases parts.len(),
{
    if parts.len() == 0 {
        Seq::empty()
    } else {
        joined(join_all(parts.drop_last()), parts.last())
    }
}

/// Adds a component to a path.
pub fn join(base: &str, part: &str) -> (path: String)
    ensures
        path@ == joined(base@, part@),
{
    proof {
        reveal_strlit("/");
    }
    if part.unicode_len() > 0 && part.get_char(0) == '/' {
        return part.to_owned();
    }
    let mut path: String = base.to_owned();
    let n: usize = base.unicode_len();
    if n > 0 && base.get_char(n - 1) != '/' {
        path.append("/");
        proof {
            assert(path@ =~= base@.push('/'));
        }
    }
    path.append(part);
    path
}

/// Each capital ASCII letter has its small letter 32 places further on; no other
/// ASCII character changes.
pub proof fn law_ascii_lower(c: char)
    ensures
        'A' <= c <= 'Z' ==> ascii_lower(c) as u32 == c as u32 + 32 && 'a' <= ascii_lower(c) <= 'z',
        !('A' <= c <= 'Z') ==> ascii_lower(c) == c,
        ascii_lower('A') == 'a',
        ascii_lower('Z') == 'z',
{
}

/// A number in decimal has no leading zero, and its digits stand for it.
pub proof fn law_decimal(n: nat)
    ensures
        dec(n).len() >= 1,
        n < 10 ==> dec(n) == seq![digit(n as int)],
        n >= 10 ==> dec(n) == dec(n / 10).push(digit((n % 10) as int)),
        n > 0 ==> dec(n)[0] != '0',
        digit(0) == '0' && digit(1) == '1' && digit(9) == '9',
    decreases n,
{
    if n >= 10 {
        law_decimal(n / 10);
        assert(dec(n)[0] == dec(n / 10)[0]);
    }
}

/// White space around a text goes, and nothing else of it.
pub proof fn law_trim(s: Seq<char>)
    ensures
        trim(seq![' '] + s) == trim(s),
        s.len() > 0 && !is_space(s[0]) && !is_space(s.last()) ==> trim(s) == s && trim(s.push(' '))
            == s,
        is_space(' ') && is_space('\t') && is_space('\n') && is_space('\r'),
        !is_space('a') && !is_space('0') && !is_space('_'),
{
    assert((seq![' '] + s).drop_first() =~= s);
    if s.len() > 0 && !is_space(s[0]) && !is_space(s.last()) {
        let t = s.push(' ');
        assert(t[0] == s[0]);
        assert(trim_start(t) == t);
        assert(t.drop_last() =~= s);
        assert(trim_end(s) == s);
    }
}

} // verus!
