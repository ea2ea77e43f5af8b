//! The settings that are kept from run to run, in a TOML file.
//!
//! Keys that are not known are kept and written back.
use vstd::prelude::*;
use vstd::string::*;

use crate::text;
use crate::toml_values;
use crate::toml_values::Content;

verus! {

/// Which theme the windows have.
#[derive(Clone, Copy, PartialEq, Eq, Debug, Structural)]
pub enum ThemeSetting {
    /// That of the system.
    System,
    Light,
    Dark,
}

impl Default for ThemeSetting {
    fn default() -> (t: Self)
        ensures
            t == ThemeSetting::System,
    {
        ThemeSetting::System
    }
}

impl ThemeSetting {
    /// What the theme is called.
    pub fn label(self) -> (s: &'static str)
        ensures
            s@ == match self {
                ThemeSetting::System => "System"@,
                ThemeSetting::Light => "Light"@,
                ThemeSetting::Dark => "Dark"@,
            },
    {
        match self {
            ThemeSetting::System => "System",
            ThemeSetting::Light => "Light",
            ThemeSetting::Dark => "Dark",
        }
    }

    /// What the theme is called in the file.
    pub open spec fn key(self) -> Seq<char> {
        match self {
            ThemeSetting::System => "system"@,
            ThemeSetting::Light => "light"@,
            ThemeSetting::Dark => "dark"@,
        }
    }

    /// The theme of a name, whatever the case of its letters.
    pub open spec fn named(s: Seq<char>) -> Option<ThemeSetting> {
        if text::same_ascii(s, "system"@) {
            Some(ThemeSetting::System)
        } else if text::same_ascii(s, "light"@) {
            Some(ThemeSetting::Light)
        } else if text::same_ascii(s, "dark"@) {
            Some(ThemeSetting::Dark)
        } else {
            None
        }
    }

    /// The theme of a name, whatever the case of its letters.
    pub fn parse(s: &str) -> (r: Option<Self>)
        ensures
            r == ThemeSetting::named(s@),
    {
        let name = text::chars_of(s);
        if text::eq_ignore_ascii(&name, &text::chars_of("system")) {
            Some(ThemeSetting::System)
        } else if text::eq_ignore_ascii(&name, &text::chars_of("light")) {
            Some(ThemeSetting::Light)
        } else if text::eq_ignore_ascii(&name, &text::chars_of("dark")) {
            Some(ThemeSetting::Dark)
        } else {
            None
        }
    }

    fn key_text(self) -> (s: &'static str)
        ensures
            s@ == self.key(),
    {
        match self {
            ThemeSetting::System => "system",
            ThemeSetting::Light => "light",
            ThemeSetting::Dark => "dark",
        }
    }
}

/// Why a text holds no settings.
#[derive(Clone, Copy, PartialEq, Eq, Debug, Structural)]
pub enum ConfigError {
    /// It is no TOML document.
    NotToml,
}

/// The settings.
pub struct Config {
    pub theme: ThemeSetting,
    pub flash_enabled: Option<bool>,
    pub zoom_anim_ms: Option<u64>,
    pub display_depth: Option<u32>,
    pub color_style: Option<String>,
    pub filter_history: Vec<String>,
    /// Width and height, both floating-point numbers.
    pub window_size: Option<(toml::Value, toml::Value)>,
    pub watch_enabled: Option<bool>,
    /// The keys that are not known.
    pub extra: toml::Table,
}

/// The settings in mathematical terms.
#[verifier::ext_equal]
pub struct ConfigView {
    pub theme: ThemeSetting,
    pub flash_enabled: Option<bool>,
    pub zoom_anim_ms: Option<u64>,
    pub display_depth: Option<u32>,
    pub color_style: Option<Seq<char>>,
    pub filter_history: Seq<Seq<char>>,
    pub window_size: Option<(toml::Value, toml::Value)>,
    pub watch_enabled: Option<bool>,
    pub extra: Map<Seq<char>, toml::Value>,
}

impl View for Config {
    type V = ConfigView;

    open spec fn view(&self) -> ConfigView {
        ConfigView {
            theme: self.theme,
            flash_enabled: self.flash_enabled,
            zoom_anim_ms: self.zoom_anim_ms,
            display_depth: self.display_depth,
            color_style: match self.color_style {
                Some(s) => Some(s@),
                None => None,
            },
            filter_history: text::texts(self.filter_history@),
            window_size: self.window_size,
            watch_enabled: self.watch_enabled,
            extra: toml_values::entries(self.extra),
        }
    }
}

/// Whether a key is known.
pub open spec fn is_known(key: Seq<char>) -> bool {
    key == "theme"@ || key == "flash_enabled"@ || key == "zoom_anim_ms"@ || key == "display_depth"@
        || key == "color_style"@ || key == "filter_history"@ || key == "window_size"@ || key
        == "watch_enabled"@
}

/// What a key holds, if it is there.
pub open spec fn held(m: Map<Seq<char>, toml::Value>, key: Seq<char>) -> Option<Content> {
    if m.dom().contains(key) {
        Some(toml_values::content(m[key]))
    } else {
        None
    }
}

/// The texts among items, in their order.
pub open spec fn texts_in(items: Seq<toml::Value>) -> Seq<Seq<char>>
    decreases items.len(),
{
    if items.len() == 0 {
        Seq::empty()
    } else {
        let before = texts_in(items.drop_last());
        match toml_values::content(items.last()) {
            Content::Text(s) => before.push(s),
            _ => before,
        }
    }
}

/// The truth value that a key holds.
pub open spec fn flag_at(m: Map<Seq<char>, toml::Value>, key: Seq<char>) -> Option<bool> {
    match held(m, key) {
        Some(Content::Flag(b)) => Some(b),
        _ => None,
    }
}

/// The settings that keys and values stand for. What is not of the right kind
/// does not count.
pub open spec fn settings(m: Map<Seq<char>, toml::Value>) -> ConfigView {
    ConfigView {
        theme: match held(m, "theme"@) {
            Some(Content::Text(s)) => match ThemeSetting::named(s) {
                Some(t) => t,
                None => ThemeSetting::System,
            },
            _ => ThemeSetting::System,
        },
        flash_enabled: flag_at(m, "flash_enabled"@),
        zoom_anim_ms: match held(m, "zoom_anim_ms"@) {
            Some(Content::Number(n)) => if n >= 0 {
                Some(n as u64)
            } else {
                None
            },
            _ => None,
        },
        display_depth: match held(m, "display_depth"@) {
            Some(Content::Number(n)) => if 0 <= n <= u32::MAX {
                Some(n as u32)
            } else {
                None
            },
            _ => None,
        },
        color_style: match held(m, "color_style"@) {
            Some(Content::Text(s)) => Some(s),
            _ => None,
        },
        filter_history: match held(m, "filter_history"@) {
            Some(Content::Items(items)) => texts_in(items),
            _ => Seq::empty(),
        },
        window_size: match held(m, "window_size"@) {
            Some(Content::Items(items)) => if items.len() >= 2 && toml_values::content(
                items[0],
            ) is Float && toml_values::content(items[1]) is Float {
                Some((items[0], items[1]))
            } else {
                None
            },
            _ => None,
        },
        watch_enabled: flag_at(m, "watch_enabled"@),
        extra: m.remove_keys(Set::new(|k: Seq<char>| is_known(k))),
    }
}

/// Whether keys and values say what settings are.
pub open spec fn states(m: Map<Seq<char>, toml::Value>, c: ConfigView) -> bool {
    &&& held(m, "theme"@) == Some(Content::Text(c.theme.key()))
    &&& match c.flash_enabled {
        Some(b) => held(m, "flash_enabled"@) == Some(Content::Flag(b)),
        None => held(m, "flash_enabled"@) == held(c.extra, "flash_enabled"@),
    }
    &&& match c.zoom_anim_ms {
        Some(n) => held(m, "zoom_anim_ms"@) == Some(Content::Number(n as i64)),
        None => held(m, "zoom_anim_ms"@) == held(c.extra, "zoom_anim_ms"@),
    }
    &&& match c.display_depth {
        Some(n) => held(m, "display_depth"@) == Some(Content::Number(n as i64)),
        None => held(m, "display_depth"@) == held(c.extra, "display_depth"@),
    }
    &&& match c.color_style {
        Some(s) => held(m, "color_style"@) == Some(Content::Text(s)),
        None => held(m, "color_style"@) == held(c.extra, "color_style"@),
    }
    &&& if c.filter_history.len() > 0 {
        held(m, "filter_history"@) matches Some(Content::Items(items)) && items.len()
            == c.filter_history.len() && forall|i: int|
            0 <= i < items.len() ==> toml_values::content(#[trigger] items[i]) == Content::Text(
                c.filter_history[i],
            )
    } else {
        held(m, "filter_history"@) == held(c.extra, "filter_history"@)
    }
    &&& match c.window_size {
        Some((w, h)) => held(m, "window_size"@) matches Some(Content::Items(items)) && items.len()
            == 2 && items[0] == w && items[1] == h,
        None => held(m, "window_size"@) == held(c.extra, "window_size"@),
    }
    &&& match c.watch_enabled {
        Some(b) => held(m, "watch_enabled"@) == Some(Content::Flag(b)),
        None => held(m, "watch_enabled"@) == held(c.extra, "watch_enabled"@),
    }
    &&& forall|k: Seq<char>|
        !is_known(k) ==> (#[trigger] m.dom().contains(k) <==> c.extra.dom().contains(k)) && (
        m.dom().contains(k) ==> m[k] == c.extra[k])
}

/// The known keys are all different.
proof fn lemma_known_keys()
    ensures
        "theme"@ != "flash_enabled"@,
        "theme"@ != "zoom_anim_ms"@,
        "theme"@ != "display_depth"@,
        "theme"@ != "color_style"@,
        "theme"@ != "filter_history"@,
        "theme"@ != "window_size"@,
        "theme"@ != "watch_enabled"@,
        "flash_enabled"@ != "zoom_anim_ms"@,
        "flash_enabled"@ != "display_depth"@,
        "flash_enabled"@ != "color_style"@,
        "flash_enabled"@ != "filter_history"@,
        "flash_enabled"@ != "window_size"@,
        "flash_enabled"@ != "watch_enabled"@,
        "zoom_anim_ms"@ != "display_depth"@,
        "zoom_anim_ms"@ != "color_style"@,
        "zoom_anim_ms"@ != "filter_history"@,
        "zoom_anim_ms"@ != "window_size"@,
        "zoom_anim_ms"@ != "watch_enabled"@,
        "display_depth"@ != "color_style"@,
        "display_depth"@ != "filter_history"@,
        "display_depth"@ != "window_size"@,
        "display_depth"@ != "watch_enabled"@,
        "color_style"@ != "filter_history"@,
        "color_style"@ != "window_size"@,
        "color_style"@ != "watch_enabled"@,
        "filter_history"@ != "window_size"@,
        "filter_history"@ != "watch_enabled"@,
        "window_size"@ != "watch_enabled"@,
{
    reveal_strlit("theme");
    reveal_strlit("flash_enabled");
    reveal_strlit("zoom_anim_ms");
    reveal_strlit("display_depth");
    reveal_strlit("color_style");
    reveal_strlit("filter_history");
    reveal_strlit("window_size");
    reveal_strlit("watch_enabled");
    assert("theme"@.len() == 5);
    assert("flash_enabled"@.len() == 13 && "flash_enabled"@[0] == 'f');
    assert("zoom_anim_ms"@.len() == 12);
    assert("display_depth"@.len() == 13 && "display_depth"@[0] == 'd');
    assert("color_style"@.len() == 11 && "color_style"@[0] == 'c');
    assert("filter_history"@.len() == 14);
    assert("window_size"@.len() == 11 && "window_size"@[0] == 'w');
    assert("watch_enabled"@.len() == 13 && "watch_enabled"@[0] == 'w');
}

/// Settings that are written and read again are the same, known or not: only a
/// time that no signed number can hold is lost.
pub proof fn law_settings_round_trip(c: ConfigView, m: Map<Seq<char>, toml::Value>)
    requires
        states(m, c),
        forall|k: Seq<char>| #[trigger] c.extra.dom().contains(k) ==> !is_known(k),
        c.zoom_anim_ms matches Some(n) ==> n <= i64::MAX,
        c.window_size matches Some((w, h)) ==> toml_values::content(w) is Float
            && toml_values::content(h) is Float,
    ensures
        settings(m) == c,
{
    lemma_known_keys();
    let s = settings(m);
    assert(s.theme == c.theme) by {
        reveal_strlit("system");
        reveal_strlit("light");
        reveal_strlit("dark");
        assert(text::same_ascii(c.theme.key(), c.theme.key()));
        assert("system"@.len() == 6 && "light"@.len() == 5 && "dark"@.len() == 4);
    }
    assert(s.extra =~= c.extra) by {
        assert forall|k: Seq<char>| #[trigger] s.extra.dom().contains(k) <==> c.extra.dom().contains(
            k,
        ) by {
            if !is_known(k) {
                assert(m.dom().contains(k) <==> c.extra.dom().contains(k));
            }
        }
        assert forall|k: Seq<char>| #[trigger] s.extra.dom().contains(k) implies s.extra[k]
            == c.extra[k] by {
            assert(m.dom().contains(k));
        }
    }
    assert(s.filter_history =~= c.filter_history) by {
        if c.filter_history.len() > 0 {
            let items = held(m, "filter_history"@)->0->Items_0;
            lemma_texts(items, c.filter_history);
        }
    }
    assert(is_known("flash_enabled"@) && is_known("zoom_anim_ms"@) && is_known("display_depth"@)
        && is_known("color_style"@) && is_known("filter_history"@) && is_known("window_size"@)
        && is_known("watch_enabled"@));
}

/// Whether settings are plain: all texts are such that TOML holds them as they
/// are.
pub open spec fn plain_settings(c: ConfigView) -> bool {
    &&& c.zoom_anim_ms matches Some(n) ==> n <= i64::MAX
    &&& c.color_style matches Some(s) ==> toml_values::plain_text(s)
    &&& forall|i: int|
        0 <= i < c.filter_history.len() ==> toml_values::plain_text(#[trigger] c.filter_history[i])
    &&& c.window_size matches Some((w, h)) ==> toml_values::content(w) is Float
        && toml_values::content(h) is Float
    &&& toml_values::plain(c.extra)
    &&& forall|k: Seq<char>| #[trigger] c.extra.dom().contains(k) ==> !is_known(k)
}

/// Letters and underscores are written as they are.
proof fn lemma_plain_word(s: Seq<char>)
    requires
        forall|i: int| 0 <= i < s.len() ==> 'a' <= #[trigger] s[i] <= 'z' || s[i] == '_',
    ensures
        toml_values::plain_text(s),
{
}

proof fn lemma_plain_keys(k: Seq<char>)
    requires
        is_known(k),
    ensures
        toml_values::plain_text(k),
{
    reveal_strlit("theme");
    reveal_strlit("flash_enabled");
    reveal_strlit("zoom_anim_ms");
    reveal_strlit("display_depth");
    reveal_strlit("color_style");
    reveal_strlit("filter_history");
    reveal_strlit("window_size");
    reveal_strlit("watch_enabled");
    lemma_plain_word(k);
}

/// Whether settings are the same but for the window size, which both have or
/// neither.
pub open spec fn same_but_size(a: ConfigView, b: ConfigView) -> bool {
    &&& b == (ConfigView { window_size: b.window_size, ..a })
    &&& b.window_size is Some == a.window_size is Some
}

/// What is read again is the same but for the window size.
proof fn lemma_kept(
    m: Map<Seq<char>, toml::Value>,
    n: Map<Seq<char>, toml::Value>,
    c: ConfigView,
)
    requires
        states(m, c),
        plain_settings(c),
        toml_values::kept(m, n),
    ensures
        same_but_size(c, settings(n)),
{
    law_settings_round_trip(c, m);
    lemma_plain(m, c);
    assert forall|k: Seq<char>| k != "window_size"@ implies #[trigger] held(n, k) == held(m, k)
        && (m.dom().contains(k) ==> n[k] == m[k]) by {
        if m.dom().contains(k) {
            assert(toml_values::plain_value(m[k]));
            assert(toml_values::kept_value(m[k], n[k]));
        }
    }
    lemma_known_keys();
    if let Some((w, h)) = c.window_size {
        let k = "window_size"@;
        assert(m.dom().contains(k));
        let items = toml_values::content(m[k])->Items_0;
        assert(toml_values::kept_value(m[k], n[k]));
        assert(!toml_values::plain_item(items[0]));
        let others = toml_values::content(n[k])->Items_0;
        assert(toml_values::kept_item(items[0], others[0]));
        assert(toml_values::kept_item(items[1], others[1]));
    } else {
        assert(held(m, "window_size"@) is None);
    }
    assert(settings(n).extra =~= settings(m).extra) by {
        assert forall|k: Seq<char>| #[trigger]
            settings(m).extra.dom().contains(k) implies settings(n).extra[k]
            == settings(m).extra[k] by {
            assert(held(n, k) == held(m, k));
        }
    }
}

/// What plain settings are written as is plain, but for the window size.
proof fn lemma_plain(m: Map<Seq<char>, toml::Value>, c: ConfigView)
    requires
        states(m, c),
        plain_settings(c),
    ensures
        toml_values::written(m),
        forall|k: Seq<char>| #[trigger]
            m.dom().contains(k) && k != "window_size"@ ==> toml_values::plain_value(m[k]),
{
    lemma_known_keys();
    assert(toml_values::plain_text(c.theme.key())) by {
        reveal_strlit("system");
        reveal_strlit("light");
        reveal_strlit("dark");
        lemma_plain_word(c.theme.key());
    }
    assert forall|k: Seq<char>| #[trigger] m.dom().contains(k) implies toml_values::plain_text(k)
        && toml_values::written_value(m[k]) && (k != "window_size"@ ==> toml_values::plain_value(
        m[k],
    )) by {
        if is_known(k) {
            lemma_plain_keys(k);
            assert(held(m, k) == Some(toml_values::content(m[k])));
            assert(!c.extra.dom().contains(k));
            assert(held(c.extra, k) is None);
        } else {
            assert(c.extra.dom().contains(k));
            assert(m[k] == c.extra[k]);
        }
    }
}

/// Items that are all texts.
proof fn lemma_texts(items: Seq<toml::Value>, texts: Seq<Seq<char>>)
    requires
        items.len() == texts.len(),
        forall|i: int|
            0 <= i < items.len() ==> toml_values::content(#[trigger] items[i]) == Content::Text(
                texts[i],
            ),
    ensures
        texts_in(items) == texts,
    decreases items.len(),
{
    if items.len() > 0 {
        lemma_texts(items.drop_last(), texts.drop_last());
        assert(toml_values::content(items[items.len() - 1]) == Content::Text(
            texts[items.len() - 1],
        ));
        assert(texts_in(items) =~= texts);
    } else {
        assert(texts_in(items) =~= texts);
    }
}

fn taken_flag(v: Option<toml::Value>) -> (r: Option<bool>)
    ensures
        r == match v {
            Some(x) => match toml_values::content(x) {
                Content::Flag(b) => Some(b),
                _ => None,
            },
            None => None,
        },
{
    match v {
        Some(x) => toml_values::as_flag(&x),
        None => None,
    }
}

fn taken_number(v: Option<toml::Value>) -> (r: Option<i64>)
    ensures
        r == match v {
            Some(x) => match toml_values::content(x) {
                Content::Number(n) => Some(n),
                _ => None,
            },
            None => None,
        },
{
    match v {
        Some(x) => toml_values::as_number(&x),
        None => None,
    }
}

fn taken_text(v: Option<toml::Value>) -> (r: Option<String>)
    ensures
        match v {
            Some(x) => match toml_values::content(x) {
                Content::Text(s) => r is Some && r->0@ == s,
                _ => r is None,
            },
            None => r is None,
        },
{
    match v {
        Some(x) => toml_values::as_text(&x),
        None => None,
    }
}

fn taken_texts(v: Option<toml::Value>) -> (r: Vec<String>)
    ensures
        text::texts(r@) == match v {
            Some(x) => match toml_values::content(x) {
                Content::Items(items) => texts_in(items),
                _ => Seq::empty(),
            },
            None => Seq::empty(),
        },
{
    let mut r: Vec<String> = Vec::new();
    proof {
        assert(text::texts(r@) =~= Seq::empty());
    }
    if let Some(x) = v {
        if let Some(items) = toml_values::as_items(&x) {
            proof {
                assert(items@.take(0) =~= Seq::empty());
            }
            for i in 0..items.len()
                invariant
                    text::texts(r@) == texts_in(items@.take(i as int)),
            {
                proof {
                    assert(items@.take(i + 1).drop_last() =~= items@.take(i as int));
                    assert(items@.take(i + 1).last() == items@[i as int]);
                }
                if let Some(s) = toml_values::as_text(&items[i]) {
                    let ghost before = r@;
                    r.push(s);
                    proof {
                        assert(text::texts(r@) =~= text::texts(before).push(s@));
                    }
                }
            }
            proof {
                assert(items@.take(items@.len() as int) =~= items@);
            }
        }
    }
    r
}

fn taken_size(v: Option<toml::Value>) -> (r: Option<(toml::Value, toml::Value)>)
    ensures
        r == match v {
            Some(x) => match toml_values::content(x) {
                Content::Items(items) => if items.len() >= 2 && toml_values::content(
                    items[0],
                ) is Float && toml_values::content(items[1]) is Float {
                    Some((items[0], items[1]))
                } else {
                    None
                },
                _ => None,
            },
            None => None,
        },
{
    if let Some(x) = v {
        if let Some(items) = toml_values::as_items(&x) {
            if items.len() >= 2 && toml_values::is_float(&items[0]) && toml_values::is_float(
                &items[1],
            ) {
                return Some(
                    (toml_values::copy_value(&items[0]), toml_values::copy_value(&items[1])),
                );
            }
        }
    }
    None
}

impl Default for Config {
    fn default() -> (c: Self)
        ensures
            c@.theme == ThemeSetting::System,
            c@.flash_enabled is None,
            c@.zoom_anim_ms is None,
            c@.display_depth is None,
            c@.color_style is None,
            c@.filter_history.len() == 0,
            c@.window_size is None,
            c@.watch_enabled is None,
            c@.extra.dom() == Set::<Seq<char>>::empty(),
    {
        Config {
            theme: ThemeSetting::System,
            flash_enabled: None,
            zoom_anim_ms: None,
            display_depth: None,
            color_style: None,
            filter_history: Vec::new(),
            window_size: None,
            watch_enabled: None,
            extra: toml_values::new_table(),
        }
    }
}

impl Config {
    /// Reads settings.
    pub fn parse(input: &str) -> (r: Result<Self, ConfigError>)
        ensures
            match toml_values::document(input@) {
                Some(m) => r is Ok && r->Ok_0@ == settings(m),
                None => r is Err && r->Err_0 == ConfigError::NotToml,
            },
    {
        match toml_values::parse_document(input) {
            Ok(t) => Ok(Config::from_table(t)),
            Err(_) => Err(ConfigError::NotToml),
        }
    }

    /// The settings that a table stands for.
    pub fn from_table(table: toml::Table) -> (c: Self)
        ensures
            c@ == settings(toml_values::entries(table)),
    {
        let ghost m = toml_values::entries(table);
        let mut t = table;
        let theme = match taken_text(toml_values::remove_entry(&mut t, "theme")) {
            Some(s) => match ThemeSetting::parse(s.as_str()) {
                Some(theme) => theme,
                None => ThemeSetting::System,
            },
            None => ThemeSetting::System,
        };
        let flash_enabled = taken_flag(toml_values::remove_entry(&mut t, "flash_enabled"));
        let zoom_anim_ms: Option<u64> = match taken_number(
            toml_values::remove_entry(&mut t, "zoom_anim_ms"),
        ) {
            Some(n) => if n >= 0 {
                Some(n as u64)
            } else {
                None
            },
            None => None,
        };
        let display_depth: Option<u32> = match taken_number(
            toml_values::remove_entry(&mut t, "display_depth"),
        ) {
            Some(n) => if 0 <= n && n <= 0xFFFF_FFFF {
                Some(n as u32)
            } else {
                None
            },
            None => None,
        };
        let color_style = taken_text(toml_values::remove_entry(&mut t, "color_style"));
        let filter_history = taken_texts(toml_values::remove_entry(&mut t, "filter_history"));
        let window_size = taken_size(toml_values::remove_entry(&mut t, "window_size"));
        let watch_enabled = taken_flag(toml_values::remove_entry(&mut t, "watch_enabled"));
        proof {
            lemma_known_keys();
            assert(toml_values::entries(t) =~= m.remove_keys(
                Set::new(|k: Seq<char>| is_known(k)),
            ));
        }
        Config {
            theme,
            flash_enabled,
            zoom_anim_ms,
            display_depth,
            color_style,
            filter_history,
            window_size,
            watch_enabled,
            extra: t,
        }
    }

    /// The table that says what the settings are. Keys that are not known come
    /// as they are.
    pub fn to_table(&self) -> (t: toml::Table)
        ensures
            states(toml_values::entries(t), self@),
    {
        proof {
            lemma_known_keys();
        }
        let mut t = toml_values::copy_table(&self.extra);
        toml_values::insert_entry(
            &mut t,
            "theme",
            toml_values::text_value(self.theme.key_text().to_owned()),
        );
        if let Some(b) = self.flash_enabled {
            toml_values::insert_entry(&mut t, "flash_enabled", toml_values::flag_value(b));
        }
        if let Some(n) = self.zoom_anim_ms {
            toml_values::insert_entry(&mut t, "zoom_anim_ms", toml_values::number_value(n as i64));
        }
        if let Some(n) = self.display_depth {
            toml_values::insert_entry(
                &mut t,
                "display_depth",
                toml_values::number_value(n as i64),
            );
        }
        if let Some(s) = &self.color_style {
            toml_values::insert_entry(&mut t, "color_style", toml_values::text_value(s.clone()));
        }
        if self.filter_history.len() > 0 {
            let mut items: Vec<toml::Value> = Vec::new();
            for i in 0..self.filter_history.len()
                invariant
                    items@.len() == i,
                    forall|j: int|
                        0 <= j < i ==> toml_values::content(#[trigger] items@[j]) == Content::Text(
                            self.filter_history@[j]@,
                        ),
            {
                items.push(toml_values::text_value(self.filter_history[i].clone()));
            }
            toml_values::insert_entry(&mut t, "filter_history", toml_values::items_value(items));
        }
        if let Some((w, h)) = &self.window_size {
            let mut items: Vec<toml::Value> = Vec::new();
            items.push(toml_values::copy_value(w));
            items.push(toml_values::copy_value(h));
            toml_values::insert_entry(&mut t, "window_size", toml_values::items_value(items));
        }
        if let Some(b) = self.watch_enabled {
            toml_values::insert_entry(&mut t, "watch_enabled", toml_values::flag_value(b));
        }
        t
    }

    /// The settings as the text of a file. If they are plain, reading the text
    /// gives the same settings, with a window size if there was one; its two
    /// numbers are left unsaid.
    pub fn to_toml(&self) -> (s: String)
        ensures
            exists|m: Map<Seq<char>, toml::Value>|
                #[trigger] states(m, self@) && s@ == toml_values::printed(m),
            plain_settings(self@) ==> (toml_values::document(s@) matches Some(m) && same_but_size(
                self@,
                settings(m),
            )),
    {
        let t = self.to_table();
        let ghost m = toml_values::entries(t);
        proof {
            assert(states(m, self@));
            if plain_settings(self@) {
                lemma_plain(m, self@);
            }
        }
        let s = toml_values::print_document(&t);
        proof {
            if plain_settings(self@) {
                lemma_kept(m, toml_values::document(s@)->0, self@);
            }
        }
        s
    }
}

/// Where the settings may be, the most wanted place first: beside the program,
/// then in the configuration directory, which is below the home directory unless
/// it is set.
pub open spec fn candidates(
    exe_dir: Option<Seq<char>>,
    config_home: Option<Seq<char>>,
    home: Option<Seq<char>>,
) -> Seq<Seq<char>> {
    let beside = match exe_dir {
        Some(d) => seq![text::joined(d, "RustySpaceSniffer.toml"@)],
        None => Seq::empty(),
    };
    let base = match config_home {
        Some(d) => Some(d),
        None => match home {
            Some(h) => Some(text::joined(h, ".config"@)),
            None => None,
        },
    };
    match base {
        Some(d) => beside.push(
            text::joined(text::joined(d, "rustyspacesniffer"@), "config.toml"@),
        ),
        None => beside,
    }
}

/// An optional text in mathematical terms.
pub open spec fn optional(s: Option<&str>) -> Option<Seq<char>> {
    match s {
        Some(t) => Some(t@),
        None => None,
    }
}

/// Where the settings may be, the most wanted place first.
pub fn config_candidates(exe_dir: Option<&str>, config_home: Option<&str>, home: Option<&str>) -> (v:
    Vec<String>)
    ensures
        text::texts(v@) == candidates(optional(exe_dir), optional(config_home), optional(home)),
{
    let mut v: Vec<String> = Vec::new();
    if let Some(d) = exe_dir {
        v.push(text::join(d, "RustySpaceSniffer.toml"));
    }
    let ghost beside = text::texts(v@);
    let base: Option<String> = match config_home {
        Some(d) => Some(d.to_owned()),
        None => match home {
            Some(h) => Some(text::join(h, ".config")),
            None => None,
        },
    };
    if let Some(d) = base {
        let dir = text::join(d.as_str(), "rustyspacesniffer");
        v.push(text::join(dir.as_str(), "config.toml"));
    }
    proof {
        assert(text::texts(v@) =~= candidates(
            optional(exe_dir),
            optional(config_home),
            optional(home),
        ));
    }
    v
}

/// Which of some candidates is read: the first that is there, or else the first,
/// where the settings will be written.
pub fn pick_candidate(there: &Vec<bool>) -> (r: Option<(usize, bool)>)
    ensures
        match r {
            Some((i, found)) => {
                &&& i < there@.len()
                &&& found == there@[i as int]
                &&& found ==> forall|j: int| 0 <= j < i ==> !#[trigger] there@[j]
                &&& !found ==> i == 0 && forall|j: int|
                    0 <= j < there@.len() ==> !#[trigger] there@[j]
            },
            None => there@.len() == 0,
        },
{
    for i in 0..there.len()
        invariant
            forall|j: int| 0 <= j < i ==> !#[trigger] there@[j],
    {
        if there[i] {
            return Some((i, true));
        }
    }
    if there.len() == 0 {
        None
    } else {
        Some((0, false))
    }
}

} // verus!
