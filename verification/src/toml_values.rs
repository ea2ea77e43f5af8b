//! TOML documents: what they hold, and the calls that settings make.
use vstd::prelude::*;

verus! {

/// A TOML value.
#[verifier::external_type_specification]
#[verifier::external_body]
pub struct ExTomlValue(toml::Value);

/// A TOML table.
#[verifier::external_type_specification]
#[verifier::external_body]
#[verifier::reject_recursive_types(K)]
#[verifier::reject_recursive_types(V)]
pub struct ExTomlMap<K, V>(toml::map::Map<K, V>);

/// Why a text is no TOML document.
#[verifier::external_type_specification]
#[verifier::external_body]
pub struct ExTomlError(toml::de::Error);

/// What a TOML value is.
pub enum Content {
    Text(Seq<char>),
    Number(i64),
    Flag(bool),
    Items(Seq<toml::Value>),
    Float,
    /// A date or a table.
    Other,
}

/// What a TOML value holds.
pub uninterp spec fn content(v: toml::Value) -> Content;

/// The keys that a TOML table holds, each with its value.
pub uninterp spec fn entries(t: toml::Table) -> Map<Seq<char>, toml::Value>;

/// The keys and values of the TOML document that a text is, if it is one.
pub uninterp spec fn document(text: Seq<char>) -> Option<Map<Seq<char>, toml::Value>>;

/// The text of the TOML document with the given keys and values.
pub uninterp spec fn printed(entries: Map<Seq<char>, toml::Value>) -> Seq<char>;

/// `toml::from_str` into a table: the keys and values of a document, or an error
/// if the text is none.
#[verifier::external_body]
pub(crate) fn parse_document(text: &str) -> (r: Result<toml::Table, toml::de::Error>)
    ensures
        match r {
            Ok(t) => document(text@) == Some(entries(t)),
            Err(_) => document(text@) is None,
        },
{
    toml::from_str(text)
}

/// Whether a text is written in TOML as it is, between quotes of one kind or the
/// other.
pub open spec fn plain_text(s: Seq<char>) -> bool {
    &&& forall|i: int| 0 <= i < s.len() ==> ' ' <= #[trigger] s[i] && s[i] != '\u{7f}'
    &&& !s.contains('\'') || !(s.contains('"') || s.contains('\\'))
}

/// Whether a value is a number, a truth value or a text that is written as it
/// is.
pub open spec fn plain_item(v: toml::Value) -> bool {
    match content(v) {
        Content::Text(s) => plain_text(s),
        Content::Number(_) => true,
        Content::Flag(_) => true,
        _ => false,
    }
}

/// Whether a value is plain, or an array of plain values.
pub open spec fn plain_value(v: toml::Value) -> bool {
    match content(v) {
        Content::Items(items) => forall|i: int|
            0 <= i < items.len() ==> plain_item(#[trigger] items[i]),
        _ => plain_item(v),
    }
}

/// Whether all keys and values are plain.
pub open spec fn plain(m: Map<Seq<char>, toml::Value>) -> bool {
    forall|k: Seq<char>| #[trigger] m.dom().contains(k) ==> plain_text(k) && plain_value(m[k])
}

/// Whether a value is plain or a floating-point number.
pub open spec fn written_item(v: toml::Value) -> bool {
    plain_item(v) || content(v) is Float
}

/// Whether a value is plain or a floating-point number, or an array of such
/// values.
pub open spec fn written_value(v: toml::Value) -> bool {
    match content(v) {
        Content::Items(items) => forall|i: int|
            0 <= i < items.len() ==> written_item(#[trigger] items[i]),
        _ => written_item(v),
    }
}

/// Whether all keys are plain, and all values plain, floating-point numbers or
/// arrays of these.
pub open spec fn written(m: Map<Seq<char>, toml::Value>) -> bool {
    forall|k: Seq<char>| #[trigger] m.dom().contains(k) ==> plain_text(k) && written_value(m[k])
}

/// Whether two values are the same, or both floating-point numbers.
pub open spec fn kept_item(v: toml::Value, w: toml::Value) -> bool {
    w == v || (content(v) is Float && content(w) is Float)
}

/// Whether two values are the same but for floating-point numbers, in whose
/// place are floating-point numbers.
pub open spec fn kept_value(v: toml::Value, w: toml::Value) -> bool {
    match content(v) {
        Content::Items(items) => w == v || (!plain_value(v) && (content(w) matches Content::Items(
            others,
        ) && others.len() == items.len() && forall|i: int|
            0 <= i < items.len() ==> kept_item(#[trigger] items[i], others[i]))),
        _ => kept_item(v, w),
    }
}

/// Whether two tables are the same but for floating-point numbers, in whose
/// place are floating-point numbers.
pub open spec fn kept(a: Map<Seq<char>, toml::Value>, b: Map<Seq<char>, toml::Value>) -> bool {
    &&& b.dom() == a.dom()
    &&& forall|k: Seq<char>| #[trigger] a.dom().contains(k) ==> kept_value(a[k], b[k])
}

/// Whether what a text reads as is a table, the same as another but for
/// floating-point numbers.
pub open spec fn reads_as(
    read: Option<Map<Seq<char>, toml::Value>>,
    m: Map<Seq<char>, toml::Value>,
) -> bool {
    read matches Some(n) && kept(m, n)
}

/// `toml::to_string_pretty` on a table, the empty text if that fails: the text of
/// the document with its keys and values. Where all of these are plain, or
/// floating-point numbers, or arrays of these, the text is a document with the
/// same keys, the same plain values, and floating-point numbers where there were
/// some; which numbers these are is left unsaid. Nothing is said of dates, tables
/// inside the table, and texts that have to be escaped.
#[verifier::external_body]
pub(crate) fn print_document(t: &toml::Table) -> (s: String)
    ensures
        s@ == printed(entries(*t)),
        written(entries(*t)) ==> reads_as(document(s@), entries(*t)),
{
    toml::to_string_pretty(t).unwrap_or_default()
}

/// `Map::new`: a table that holds nothing.
#[verifier::external_body]
pub(crate) fn new_table() -> (t: toml::Table)
    ensures
        entries(t).dom() == Set::<Seq<char>>::empty(),
{
    toml::Table::new()
}

/// `Map::clone`: a table with the same keys and values.
#[verifier::external_body]
pub(crate) fn copy_table(t: &toml::Table) -> (c: toml::Table)
    ensures
        entries(c) == entries(*t),
{
    t.clone()
}

/// `Map::insert`: gives a key a value, whether it had one or not.
#[verifier::external_body]
pub(crate) fn insert_entry(t: &mut toml::Table, key: &str, value: toml::Value)
    ensures
        entries(*final(t)) == entries(*old(t)).insert(key@, value),
{
    t.insert(key.to_string(), value);
}

/// `Map::remove`: takes a key out of the table, and hands back its value.
#[verifier::external_body]
pub(crate) fn remove_entry(t: &mut toml::Table, key: &str) -> (r: Option<toml::Value>)
    ensures
        r == if entries(*old(t)).dom().contains(key@) {
            Some(entries(*old(t))[key@])
        } else {
            None
        },
        entries(*final(t)) == entries(*old(t)).remove(key@),
{
    t.remove(key)
}

/// `Value::as_str`: the text, if the value is one.
#[verifier::external_body]
pub(crate) fn as_text(v: &toml::Value) -> (r: Option<String>)
    ensures
        match content(*v) {
            Content::Text(s) => r is Some && r->0@ == s,
            _ => r is None,
        },
{
    v.as_str().map(str::to_string)
}

/// `Value::as_integer`: the number, if the value is one.
#[verifier::external_body]
pub(crate) fn as_number(v: &toml::Value) -> (r: Option<i64>)
    ensures
        r == match content(*v) {
            Content::Number(n) => Some(n),
            _ => None,
        },
{
    v.as_integer()
}

/// `Value::as_bool`: the truth value, if the value is one.
#[verifier::external_body]
pub(crate) fn as_flag(v: &toml::Value) -> (r: Option<bool>)
    ensures
        r == match content(*v) {
            Content::Flag(b) => Some(b),
            _ => None,
        },
{
    v.as_bool()
}

/// `Value::as_array`: the items, if the value is an array.
#[verifier::external_body]
pub(crate) fn as_items(v: &toml::Value) -> (r: Option<&Vec<toml::Value>>)
    ensures
        match content(*v) {
            Content::Items(s) => r is Some && r->0@ == s,
            _ => r is None,
        },
{
    v.as_array()
}

/// `Value::is_float`: whether the value is a floating-point number.
#[verifier::external_body]
pub(crate) fn is_float(v: &toml::Value) -> (r: bool)
    ensures
        r == (content(*v) is Float),
{
    v.is_float()
}

/// `Value::clone`: the same value.
#[verifier::external_body]
pub(crate) fn copy_value(v: &toml::Value) -> (c: toml::Value)
    ensures
        c == *v,
{
    v.clone()
}

/// `Value::String`: the value that is a text.
#[verifier::external_body]
pub(crate) fn text_value(s: String) -> (v: toml::Value)
    ensures
        content(v) == Content::Text(s@),
{
    toml::Value::String(s)
}

/// `Value::Integer`: the value that is a number.
#[verifier::external_body]
pub(crate) fn number_value(n: i64) -> (v: toml::Value)
    ensures
        content(v) == Content::Number(n),
{
    toml::Value::Integer(n)
}

/// `Value::Boolean`: the value that is a truth value.
#[verifier::external_body]
pub(crate) fn flag_value(b: bool) -> (v: toml::Value)
    ensures
        content(v) == Content::Flag(b),
{
    toml::Value::Boolean(b)
}

/// `Value::Array`: the value that is an array of items.
#[verifier::external_body]
pub(crate) fn items_value(items: Vec<toml::Value>) -> (v: toml::Value)
    ensures
        content(v) == Content::Items(items@),
{
    toml::Value::Array(items)
}

} // verus!
