//! The program: its views, its dialogs and its settings.
use vstd::prelude::*;
use vstd::string::*;

use crate::builder;
use crate::builder::BuilderView;
use crate::config::{Config, ThemeSetting};
use crate::controls;
use crate::controls::{Button, KeyAction};
use crate::defaults;
use crate::defaults::{ClassStyle, Palette, PaletteView};
use crate::entry;
use crate::entry::ViewEntry;
use crate::export::JsonNode;
use crate::export_error::ExportError;
use crate::fileops;
use crate::fileops::DeleteDialog;
use crate::messages;
use crate::node::NodeParams;
use crate::paths;
use crate::scan;
use crate::scan::ScanSummary;
use crate::snapshot_format::SnapshotError;
use crate::text;
use crate::tree::Tree;
use crate::treemap::TreemapCmd;
use crate::view;
use crate::view::{AnimKind, ScanView, WatchEvent, WatchOutcome};
use crate::view_export;
use crate::view_export::ExportKind;
use crate::FileTime;
use crate::NodeId;

verus! {

/// The paths in an input field, set apart by semicolons; blank ones do not
/// count.
pub open spec fn paths_in(s: Seq<char>) -> Seq<Seq<char>>
    decreases s.len(),
{
    let n = text::find(s, ';');
    let piece = text::trim(s.take(n as int));
    let rest = if n < s.len() {
        paths_in(s.skip(n as int + 1))
    } else {
        Seq::empty()
    };
    if piece.len() > 0 {
        seq![piece] + rest
    } else {
        rest
    }
}

/// The paths in an input field.
pub fn split_paths(input: &str) -> (v: Vec<String>)
    ensures
        text::texts(v@) == paths_in(input@),
{
    let chars = text::chars_of(input);
    let mut v: Vec<String> = Vec::new();
    let mut from: usize = 0;
    proof {
        assert(chars@.skip(0) =~= chars@);
        assert(text::texts(v@) + paths_in(chars@) =~= paths_in(chars@));
    }
    loop
        invariant
            chars@ == input@,
            from <= chars@.len(),
            paths_in(chars@) == text::texts(v@) + paths_in(chars@.skip(from as int)),
        decreases chars@.len() - from,
    {
        let end: usize = text::find_from(&chars, from, ';');
        let ghost rest = chars@.skip(from as int);
        let ghost before = text::texts(v@);
        let ghost tail = if end < chars@.len() {
            paths_in(chars@.skip(end + 1))
        } else {
            Seq::empty()
        };
        let piece = text::part(&chars, from, end);
        proof {
            assert(rest.take(end - from) =~= piece@);
            if end < chars@.len() {
                assert(rest.skip(end - from + 1) =~= chars@.skip(end + 1));
            }
        }
        let trimmed = text::trimmed(&piece);
        if trimmed.len() > 0 {
            let s = text::text_of(&trimmed);
            let ghost list = v@;
            v.push(s);
            proof {
                assert(text::texts(v@) =~= before.push(s@));
                assert(before + (seq![s@] + tail) =~= before.push(s@) + tail);
            }
        }
        proof {
            assert(paths_in(chars@) == text::texts(v@) + tail);
        }
        if end >= chars.len() {
            proof {
                assert(text::texts(v@) + tail =~= text::texts(v@));
            }
            return v;
        }
        from = end + 1;
    }
}

/// The dialog that asks what to scan or to load.
#[derive(Debug, PartialEq, Eq)]
pub struct StartDialog {
    pub open: bool,
    pub path: String,
    pub snapshot_path: String,
    /// Whether it asks for a snapshot.
    pub snapshots_tab: bool,
    pub error: Option<String>,
}

impl StartDialog {
    /// Whether the dialog is open with nothing in it.
    pub open spec fn untouched(&self) -> bool {
        &&& self.open
        &&& self.path@.len() == 0
        &&& self.snapshot_path@.len() == 0
        &&& !self.snapshots_tab
        &&& self.error is None
    }

    /// The dialog as the program starts with it.
    pub fn new() -> (d: Self)
        ensures
            d.untouched(),
    {
        StartDialog {
            open: true,
            path: String::new(),
            snapshot_path: String::new(),
            snapshots_tab: false,
            error: None,
        }
    }

    /// The paths to scan. Without any the dialog stays and says so.
    pub fn submit_paths(&mut self) -> (v: Vec<String>)
        ensures
            text::texts(v@) == paths_in(old(self).path@),
            if paths_in(old(self).path@).len() == 0 {
                &&& final(self).error matches Some(e) && e@ == "enter a path to scan"@
                &&& *final(self) == (StartDialog { error: final(self).error, ..*old(self) })
            } else {
                *final(self) == (StartDialog { open: false, ..*old(self) })
            },
    {
        let v = split_paths(self.path.as_str());
        proof {
            assert(text::texts(v@).len() == v@.len());
        }
        if v.len() == 0 {
            self.error = Some("enter a path to scan".to_owned());
        } else {
            self.open = false;
        }
        v
    }

    /// The snapshot file to load. Without one the dialog stays and says so.
    pub fn submit_snapshot(&mut self) -> (r: Option<String>)
        ensures
            ({
                let path = text::trim(old(self).snapshot_path@);
                if path.len() == 0 {
                    &&& r is None
                    &&& final(self).error matches Some(e) && e@ == "enter a snapshot path"@
                    &&& *final(self) == (StartDialog { error: final(self).error, ..*old(self) })
                } else {
                    &&& r matches Some(p) && p@ == path
                    &&& *final(self) == (StartDialog { open: false, ..*old(self) })
                }
            }),
    {
        let path = text::trimmed(&text::chars_of(self.snapshot_path.as_str()));
        if path.len() == 0 {
            self.error = Some("enter a snapshot path".to_owned());
            None
        } else {
            self.open = false;
            Some(text::text_of(&path))
        }
    }

    /// Forgets what was wrong, once the input is changed.
    pub fn edited(&mut self)
        ensures
            *final(self) == (StartDialog { error: None, ..*old(self) }),
    {
        self.error = None;
    }
}

impl Default for StartDialog {
    fn default() -> (d: Self)
        ensures
            d.open,
            d.path@.len() == 0,
            d.snapshot_path@.len() == 0,
            !d.snapshots_tab,
            d.error is None,
    {
        StartDialog::new()
    }
}

/// Whether a path is that of a snapshot file: its name ends in `.rssnap`, with
/// something before it.
pub open spec fn is_snapshot_path(path: Seq<char>) -> bool {
    match paths::file_name(path) {
        Some(n) => n.len() > 7 && n.skip(n.len() - 7) == ".rssnap"@,
        None => false,
    }
}

/// Whether a path is that of a snapshot file.
pub fn names_snapshot(path: &str) -> (r: bool)
    ensures
        r == is_snapshot_path(path@),
{
    match paths::name_of(path) {
        None => false,
        Some(name) => {
            let chars = text::chars_of(name.as_str());
            let n: usize = chars.len();
            if n <= 7 {
                return false;
            }
            let end = text::part(&chars, n - 7, n);
            proof {
                assert(end@ =~= chars@.skip(n - 7));
            }
            text::is_text(&end, ".rssnap")
        },
    }
}

/// Of some paths those that are snapshots, or those that are not, in their order.
pub open spec fn of_kind(paths: Seq<Seq<char>>, snapshots: bool) -> Seq<Seq<char>>
    decreases paths.len(),
{
    if paths.len() == 0 {
        Seq::empty()
    } else {
        let before = of_kind(paths.drop_last(), snapshots);
        if is_snapshot_path(paths.last()) == snapshots {
            before.push(paths.last())
        } else {
            before
        }
    }
}

/// Sets snapshots apart from folders.
pub fn sort_dropped(dropped: &Vec<String>) -> (r: (Vec<String>, Vec<String>))
    ensures
        text::texts(r.0@) == of_kind(text::texts(dropped@), true),
        text::texts(r.1@) == of_kind(text::texts(dropped@), false),
{
    let ghost all = text::texts(dropped@);
    let mut snapshots: Vec<String> = Vec::new();
    let mut folders: Vec<String> = Vec::new();
    proof {
        assert(all.take(0) =~= Seq::empty());
        assert(text::texts(snapshots@) =~= Seq::empty());
        assert(text::texts(folders@) =~= Seq::empty());
    }
    for i in 0..dropped.len()
        invariant
            all == text::texts(dropped@),
            text::texts(snapshots@) == of_kind(all.take(i as int), true),
            text::texts(folders@) == of_kind(all.take(i as int), false),
    {
        let p = dropped[i].clone();
        proof {
            assert(all.take(i + 1).drop_last() =~= all.take(i as int));
            assert(all.take(i + 1).last() == p@);
        }
        let ghost s0 = text::texts(snapshots@);
        let ghost f0 = text::texts(folders@);
        if names_snapshot(p.as_str()) {
            snapshots.push(p);
            proof {
                assert(text::texts(snapshots@) =~= s0.push(p@));
            }
        } else {
            folders.push(p);
            proof {
                assert(text::texts(folders@) =~= f0.push(p@));
            }
        }
    }
    proof {
        assert(all.take(all.len() as int) =~= all);
    }
    (snapshots, folders)
}

/// Paths in one input field.
pub open spec fn in_one_field(paths: Seq<Seq<char>>) -> Seq<char>
    decreases paths.len(),
{
    if paths.len() == 0 {
        Seq::empty()
    } else if paths.len() == 1 {
        paths[0]
    } else {
        in_one_field(paths.drop_last()).push(';') + paths.last()
    }
}

fn join_field(list: &Vec<String>) -> (s: String)
    ensures
        s@ == in_one_field(text::texts(list@)),
{
    let ghost all = text::texts(list@);
    let mut s = String::new();
    proof {
        assert(all.take(0) =~= Seq::empty());
        assert(s@ =~= Seq::empty());
    }
    for i in 0..list.len()
        invariant
            all == text::texts(list@),
            s@ == in_one_field(all.take(i as int)),
    {
        proof {
            assert(all.take(i + 1).drop_last() =~= all.take(i as int));
            assert(all.take(i + 1).last() == list@[i as int]@);
        }
        if i > 0 {
            s.push(';');
        }
        s.append(list[i].as_str());
        proof {
            if i == 0 {
                assert(all.take(1)[0] == list@[0]@);
                assert(s@ =~= all.take(1)[0]);
            }
        }
    }
    proof {
        assert(all.take(all.len() as int) =~= all);
    }
    s
}

/// The program.
pub struct RssApp {
    /// The views; the first is in the window that the program starts with.
    pub entries: Vec<ViewEntry>,
    pub start: StartDialog,
    /// What the user is to be told.
    pub notice: Option<String>,
    pub config: Config,
    pub delete_dialog: Option<DeleteDialog>,
    pub settings_open: bool,
    pub log_open: bool,
    /// Whether the colours of a dark window were applied last.
    pub applied_dark: Option<bool>,
}

/// Whether the views of some entries are in order.
pub open spec fn entries_wf(list: Seq<ViewEntry>) -> bool {
    forall|i: int| 0 <= i < list.len() ==> (#[trigger] list[i]).view.wf()
}

/// Where something new goes: a first entry that was never used, or else one more
/// entry.
pub open spec fn place_in(list: Seq<ViewEntry>) -> int {
    if list.len() > 0 && list[0].ever_scanned {
        list.len() as int
    } else {
        0
    }
}

/// Whether `e` is the entry that something new goes into.
pub open spec fn placed(list: Seq<ViewEntry>, e: ViewEntry) -> bool {
    if place_in(list) < list.len() {
        e == list[place_in(list)]
    } else {
        e.untouched()
    }
}

/// Whether `new` are some entries after something new went into its place.
pub open spec fn others_stay(list: Seq<ViewEntry>, new: Seq<ViewEntry>) -> bool {
    let idx = place_in(list);
    &&& new.len() == if idx < list.len() {
        list.len() as int
    } else {
        idx + 1
    }
    &&& forall|i: int| 0 <= i < list.len() && i != idx ==> (#[trigger] new[i]) == list[i]
}

/// Whether `new` is an entry that was made ready for a scan.
pub open spec fn prepared(e: ViewEntry, new: ViewEntry, c: &Config, dark: bool) -> bool {
    &&& with_settings(e.view, new.view, c, dark)
    &&& new == (ViewEntry {
        view: new.view,
        scan: match e.scan {
            Some(s) => Some(entry::RunningScan { cancel: true, ..s }),
            None => None,
        },
        watching: false,
        watch_notice: None,
        ..e
    })
}

/// A view with the settings applied.
pub open spec fn with_settings(v: ScanView, new: ScanView, c: &Config, dark: bool) -> bool {
    let p = defaults::palette_of(dark);
    &&& new == (ScanView {
        flat_colors: p.flat,
        tag_colors: new.tag_colors,
        level_contrast: p.level_contrast,
        class_styles: new.class_styles,
        flash_enabled: match c.flash_enabled {
            Some(b) => b,
            None => v.flash_enabled,
        },
        zoom_anim_ms: match c.zoom_anim_ms {
            Some(n) => n,
            None => v.zoom_anim_ms,
        },
        display_depth: match c.display_depth {
            Some(n) => n,
            None => v.display_depth,
        },
        ..v
    })
    &&& recolored(&v, &new, p)
}

/// Whether the colours of a view are those of a palette.
pub open spec fn recolored(v: &ScanView, new: &ScanView, p: PaletteView) -> bool {
    &&& new.flat_colors == p.flat
    &&& new.tag_colors@ == p.tags
    &&& new.level_contrast == p.level_contrast
    &&& new.class_styles@.len() == v.class_styles@.len()
    &&& forall|i: int|
        0 <= i < v.class_styles@.len() ==> (#[trigger] new.class_styles@[i]) == (ClassStyle {
            class: v.class_styles@[i].class,
            color: if i < p.classes.len() {
                p.classes[i].color
            } else {
                v.class_styles@[i].color
            },
        })
}

/// Whether `new` is a view after a palette was applied to it.
pub open spec fn repainted(v: &ScanView, new: &ScanView, p: PaletteView) -> bool {
    &&& recolored(v, new, p)
    &&& *new == (ScanView {
        flat_colors: p.flat,
        tag_colors: new.tag_colors,
        level_contrast: p.level_contrast,
        class_styles: new.class_styles,
        ..*v
    })
}

/// Applies a palette to a view.
fn recolor(v: &mut ScanView, palette: &Palette)
    requires
        old(v).wf(),
    ensures
        final(v).wf(),
        repainted(old(v), final(v), palette@),
{
    v.apply_palette(palette);
    proof {
        assert forall|i: int| 0 <= i < old(v).class_styles@.len() implies (
        #[trigger] v.class_styles@[i]) == (ClassStyle {
            class: old(v).class_styles@[i].class,
            color: if i < palette@.classes.len() {
                palette@.classes[i].color
            } else {
                old(v).class_styles@[i].color
            },
        }) by {
            assert(defaults::style_views(palette.classes@).len() == palette.classes@.len());
        }
    }
}

/// Applies the settings to a view.
fn configure(v: &mut ScanView, c: &Config, dark: bool)
    requires
        old(v).wf(),
    ensures
        final(v).wf(),
        with_settings(*old(v), *final(v), c, dark),
{
    let palette = defaults::palette(dark);
    recolor(v, &palette);
    let flash_enabled = match c.flash_enabled {
        Some(b) => b,
        None => v.flash_enabled,
    };
    let zoom_anim_ms: u64 = match c.zoom_anim_ms {
        Some(n) => n,
        None => v.zoom_anim_ms,
    };
    let display_depth: u32 = match c.display_depth {
        Some(n) => n,
        None => v.display_depth,
    };
    v.flash_enabled = flash_enabled;
    v.zoom_anim_ms = zoom_anim_ms;
    v.display_depth = display_depth;
}

impl RssApp {
    /// The views of the program are in order.
    pub open spec fn wf(&self) -> bool {
        entries_wf(self.entries@)
    }

    /// The program as it starts.
    pub fn with_config(config: Config) -> (app: Self)
        ensures
            app.wf(),
            app.entries@.len() == 0,
            app.start.untouched(),
            app.notice is None,
            app.config == config,
            app.delete_dialog is None,
            !app.settings_open,
            !app.log_open,
            app.applied_dark is None,
    {
        RssApp {
            entries: Vec::new(),
            start: StartDialog::new(),
            notice: None,
            config,
            delete_dialog: None,
            settings_open: false,
            log_open: false,
            applied_dark: None,
        }
    }

    /// The theme that is set.
    pub fn theme_setting(&self) -> (t: ThemeSetting)
        ensures
            t == self.config.theme,
    {
        self.config.theme
    }

    /// Sets the theme.
    pub fn set_theme(&mut self, theme: ThemeSetting)
        ensures
            *final(self) == (RssApp { config: Config { theme, ..old(self).config }, ..*old(self) }),
    {
        self.config.theme = theme;
    }

    /// Takes note of whether the settings could be written.
    pub fn config_saved(&mut self, saved: bool)
        ensures
            saved ==> *final(self) == *old(self),
            !saved ==> {
                &&& final(self).notice matches Some(n) && n@
                    == "settings are not saved (no writable config location)"@
                &&& *final(self) == (RssApp { notice: final(self).notice, ..*old(self) })
            },
    {
        if !saved {
            self.notice = Some("settings are not saved (no writable config location)".to_owned());
        }
    }

    /// The view in the window that the program starts with, if there is one.
    pub fn view(&self) -> (r: Option<&ScanView>)
        ensures
            match r {
                Some(v) => self.entries@.len() > 0 && *v == self.entries@[0].view,
                None => self.entries@.len() == 0,
            },
    {
        if self.entries.len() > 0 {
            Some(&self.entries[0].view)
        } else {
            None
        }
    }

    /// The view in the window that the program starts with, to be changed.
    pub fn view_mut(&mut self) -> (r: Option<&mut ScanView>)
        ensures
            match r {
                Some(v) => {
                    &&& old(self).entries@.len() > 0
                    &&& *v == old(self).entries@[0].view
                    &&& *final(self) == (RssApp { entries: final(self).entries, ..*old(self) })
                    &&& final(self).entries@ == old(self).entries@.update(
                        0,
                        ViewEntry { view: *final(v), ..old(self).entries@[0] },
                    )
                },
                None => old(self).entries@.len() == 0 && *final(self) == *old(self),
            },
    {
        if self.entries.len() > 0 {
            Some(&mut self.entries[0].view)
        } else {
            None
        }
    }

    /// Puts other settings in the place of those that there are. Colours are
    /// applied anew.
    pub fn config_for_test(&mut self, config: Config)
        ensures
            *final(self) == (RssApp { config, applied_dark: None, ..*old(self) }),
    {
        self.config = config;
        self.applied_dark = None;
    }

    /// How many views there are.
    pub fn view_count(&self) -> (n: usize)
        ensures
            n == self.entries@.len(),
    {
        self.entries.len()
    }

    /// The path that a view is of.
    pub fn view_path(&self, i: usize) -> (r: Option<&str>)
        ensures
            match r {
                Some(p) => i < self.entries@.len() && p@ == self.entries@[i as int].view.scan_path@,
                None => i >= self.entries@.len(),
            },
    {
        if i < self.entries.len() {
            Some(self.entries[i].view.scan_path.as_str())
        } else {
            None
        }
    }

    /// Whether a scan runs.
    pub fn is_scanning(&self) -> (r: bool)
        ensures
            r == exists|i: int|
                0 <= i < self.entries@.len() && (#[trigger] self.entries@[i]).scan is Some,
    {
        for i in 0..self.entries.len()
            invariant
                forall|j: int| 0 <= j < i ==> (#[trigger] self.entries@[j]).scan is None,
        {
            if self.entries[i].scan.is_some() {
                return true;
            }
        }
        false
    }

    /// Asks the first view's scan to pause or to go on.
    pub fn set_root_scan_paused(&mut self, paused: bool)
        ensures
            final(self).entries@.len() == old(self).entries@.len(),
            *final(self) == (RssApp { entries: final(self).entries, ..*old(self) }),
            old(self).entries@.len() > 0 ==> final(self).entries@ == old(self).entries@.update(
                0,
                ViewEntry {
                    scan: match old(self).entries@[0].scan {
                        Some(s) => Some(entry::RunningScan { pause: paused, ..s }),
                        None => None,
                    },
                    ..old(self).entries@[0]
                },
            ),
    {
        if self.entries.len() > 0 {
            self.entries[0].set_paused(paused);
        }
    }

    /// Whether the first view's scan is asked to pause.
    pub fn root_scan_paused(&self) -> (r: bool)
        ensures
            r == (self.entries@.len() > 0 && self.entries@[0].paused()),
    {
        self.entries.len() > 0 && self.entries[0].is_paused()
    }

    /// Asks the first view's scan to end. The other views go on.
    pub fn cancel_scan(&mut self)
        ensures
            *final(self) == (RssApp { entries: final(self).entries, ..*old(self) }),
            final(self).entries@ == if old(self).entries@.len() > 0 {
                let e = old(self).entries@[0];
                old(self).entries@.update(
                    0,
                    ViewEntry {
                        scan: match e.scan {
                            Some(s) => Some(entry::RunningScan { cancel: true, ..s }),
                            None => None,
                        },
                        ..e
                    },
                )
            } else {
                old(self).entries@
            },
    {
        if self.entries.len() > 0 {
            self.entries[0].cancel();
        }
    }

    /// Makes room for something new, and says where: a first entry that was
    /// never used is taken.
    pub fn place(&mut self) -> (idx: usize)
        requires
            old(self).wf(),
        ensures
            final(self).wf(),
            idx == place_in(old(self).entries@),
            idx < final(self).entries@.len(),
            *final(self) == (RssApp { entries: final(self).entries, ..*old(self) }),
            if idx == old(self).entries@.len() {
                &&& final(self).entries@.len() == idx + 1
                &&& final(self).entries@.drop_last() == old(self).entries@
                &&& final(self).entries@.last().untouched()
            } else {
                final(self).entries@ == old(self).entries@
            },
    {
        let n: usize = self.entries.len();
        let idx: usize = if n > 0 && self.entries[0].ever_scanned {
            n
        } else {
            0
        };
        if idx == n {
            let ghost before = self.entries@;
            self.entries.push(ViewEntry::new());
            proof {
                assert(self.entries@.drop_last() =~= before);
                assert forall|i: int| 0 <= i < self.entries@.len() implies (
                #[trigger] self.entries@[i]).view.wf() by {
                    if i < n {
                        assert(before[i].view.wf());
                    }
                }
            }
        }
        idx
    }

    /// Applies the settings to an entry.
    pub fn apply_config_defaults_to_entry(&mut self, idx: usize)
        requires
            old(self).wf(),
            idx < old(self).entries@.len(),
        ensures
            final(self).wf(),
            *final(self) == (RssApp { entries: final(self).entries, ..*old(self) }),
            final(self).entries@ == old(self).entries@.update(
                idx as int,
                ViewEntry {
                    view: final(self).entries@[idx as int].view,
                    ..old(self).entries@[idx as int]
                },
            ),
            with_settings(
                old(self).entries@[idx as int].view,
                final(self).entries@[idx as int].view,
                &old(self).config,
                old(self).applied_dark != Some(false),
            ),
    {
        let dark = match self.applied_dark {
            Some(d) => d,
            None => true,
        };
        let ghost before = self.entries@;
        proof {
            assert(before[idx as int].view.wf());
        }
        configure(&mut self.entries[idx].view, &self.config, dark);
        proof {
            assert forall|i: int| 0 <= i < self.entries@.len() implies (
            #[trigger] self.entries@[i]).view.wf() by {
                if i != idx {
                    assert(before[i].view.wf());
                }
            }
        }
    }
}

/// Entries of which one is another.
pub open spec fn one_changed(list: Seq<ViewEntry>, new: Seq<ViewEntry>, idx: int) -> bool {
    0 <= idx < list.len() && new == list.update(idx, new[idx])
}

/// Changing one entry leaves the others in order.
proof fn lemma_one_changed(list: Seq<ViewEntry>, new: Seq<ViewEntry>, idx: int)
    requires
        entries_wf(list),
        one_changed(list, new, idx),
        new[idx].view.wf(),
    ensures
        entries_wf(new),
{
    assert forall|i: int| 0 <= i < new.len() implies (#[trigger] new[i]).view.wf() by {
        if i != idx {
            assert(list[i].view.wf());
        }
    }
}

/// The snapshot to load of what was dropped onto the window: the first.
pub fn dropped_snapshot(dropped: &Vec<String>) -> (r: Option<String>)
    ensures
        ({
            let snapshots = of_kind(text::texts(dropped@), true);
            scan::text_option(r) == if snapshots.len() > 0 {
                Some(snapshots[0])
            } else {
                None
            }
        }),
{
    let (snapshots, _) = sort_dropped(dropped);
    proof {
        assert(text::texts(snapshots@).len() == snapshots@.len());
    }
    if snapshots.len() > 0 {
        proof {
            assert(text::texts(snapshots@)[0] == snapshots@[0]@);
        }
        Some(snapshots[0].clone())
    } else {
        None
    }
}

/// An entry whose view has taken over settings.
#[verifier::opaque]
pub open spec fn adopted(
    e: ViewEntry,
    flash: Option<bool>,
    anim: Option<u64>,
    depth: Option<u32>,
) -> ViewEntry {
    ViewEntry {
        view: ScanView {
            flash_enabled: match flash {
                Some(b) => b,
                None => e.view.flash_enabled,
            },
            zoom_anim_ms: match anim {
                Some(n) => n,
                None => e.view.zoom_anim_ms,
            },
            display_depth: match depth {
                Some(n) => n,
                None => e.view.display_depth,
            },
            ..e.view
        },
        ..e
    }
}

fn adopt(e: &mut ViewEntry, flash: Option<bool>, anim: Option<u64>, depth: Option<u32>)
    requires
        old(e).view.wf(),
    ensures
        final(e).view.wf(),
        *final(e) == adopted(*old(e), flash, anim, depth),
{
    let flash_enabled = match flash {
        Some(b) => b,
        None => e.view.flash_enabled,
    };
    let zoom_anim_ms: u64 = match anim {
        Some(n) => n,
        None => e.view.zoom_anim_ms,
    };
    let display_depth: u32 = match depth {
        Some(n) => n,
        None => e.view.display_depth,
    };
    e.view.flash_enabled = flash_enabled;
    e.view.zoom_anim_ms = zoom_anim_ms;
    e.view.display_depth = display_depth;
    proof {
        reveal(adopted);
    }
}

fn adopt_all(
    list: &mut Vec<ViewEntry>,
    flash: Option<bool>,
    anim: Option<u64>,
    depth: Option<u32>,
)
    requires
        entries_wf(old(list)@),
    ensures
        entries_wf(final(list)@),
        final(list)@.len() == old(list)@.len(),
        forall|i: int|
            0 <= i < old(list)@.len() ==> (#[trigger] final(list)@[i]) == adopted(
                old(list)@[i],
                flash,
                anim,
                depth,
            ),
{
    let ghost before = list@;
    let n: usize = list.len();
    for i in 0..n
        invariant
            n == before.len(),
            list@.len() == n,
            entries_wf(list@),
            forall|j: int| 0 <= j < i ==> (#[trigger] list@[j]) == adopted(before[j], flash, anim, depth),
            forall|j: int| i <= j < n ==> (#[trigger] list@[j]) == before[j],
    {
        let ghost mid = list@;
        proof {
            assert(mid[i as int].view.wf());
        }
        adopt(&mut list[i], flash, anim, depth);
        proof {
            assert(one_changed(mid, list@, i as int));
            lemma_one_changed(mid, list@, i as int);
            assert(mid[i as int] == before[i as int]);
        }
    }
}

/// What a key asks for that the program cannot do by itself.
pub enum KeyEffect {
    Nothing,
    /// The program is to end.
    Quit,
    /// The first view is to be scanned anew.
    Rescan,
    /// The path is to be scanned anew, into the first view.
    RescanSubtree(String),
}

/// What a command on an element asks for that the program cannot do by itself.
pub enum CmdEffect {
    Nothing,
    /// The path is to be opened.
    Open(String),
    /// The path is to be shown in the file manager.
    Reveal(String),
    /// The menu of the shell is to be shown for the path.
    ShellMenu(String),
}

impl RssApp {
    /// Shows a complete tree in place of all views.
    pub fn attach_tree(&mut self, tree: Tree, root: NodeId, scan_path: String, summary: ScanSummary)
        requires
            tree@.wf(),
            tree@.live(root),
        ensures
            final(self).wf(),
            *final(self) == (RssApp {
                entries: final(self).entries,
                start: StartDialog { open: false, ..old(self).start },
                ..*old(self)
            }),
            final(self).entries@.len() == 1,
            final(self).entries@[0] == (ViewEntry {
                view: final(self).entries@[0].view,
                scan: None,
                watching: false,
                watch_notice: None,
                open: true,
                ever_scanned: true,
                pending_fresh: false,
            }),
            final(self).entries@[0].view.state() == tree@,
            final(self).entries@[0].view.builder@.orphans == 0,
            builder::indexes(tree@, final(self).entries@[0].view.builder@.dirs),
            !final(self).entries@[0].view.scanning,
            final(self).entries@[0].view.root == root,
            final(self).entries@[0].view.zoom == root,
            final(self).entries@[0].view.scan_path@ == scan_path@,
            final(self).entries@[0].view.summary == Some(summary),
            exists|v: ScanView|
                #[trigger] v.starts_plain() && with_settings(
                    v,
                    final(self).entries@[0].view,
                    &old(self).config,
                    old(self).applied_dark != Some(false),
                ),
    {
        self.start.open = false;
        let view = ScanView::new(tree, root, scan_path, summary);
        let ghost plain = view;
        let mut entries: Vec<ViewEntry> = Vec::new();
        entries.push(ViewEntry::completed(view));
        self.entries = entries;
        self.apply_config_defaults_to_entry(0);
        proof {
            assert(plain.starts_plain());
            assert(with_settings(
                plain,
                self.entries@[0].view,
                &old(self).config,
                old(self).applied_dark != Some(false),
            ));
        }
    }

    /// Makes an entry ready for a scan that is about to start in it.
    pub fn prepare_scan(&mut self, idx: usize)
        requires
            old(self).wf(),
            idx < old(self).entries@.len(),
        ensures
            final(self).wf(),
            *final(self) == (RssApp { entries: final(self).entries, ..*old(self) }),
            one_changed(old(self).entries@, final(self).entries@, idx as int),
            prepared(
                old(self).entries@[idx as int],
                final(self).entries@[idx as int],
                &old(self).config,
                old(self).applied_dark != Some(false),
            ),
    {
        self.apply_config_defaults_to_entry(idx);
        let ghost before = self.entries@;
        proof {
            assert(before[idx as int].view.wf());
        }
        self.entries[idx].prepare_scan();
        proof {
            assert(one_changed(before, self.entries@, idx as int));
            lemma_one_changed(before, self.entries@, idx as int);
            assert(self.entries@ =~= old(self).entries@.update(
                idx as int,
                self.entries@[idx as int],
            ));
        }
    }

    /// Makes room for a scan that is about to start, and says in which entry.
    pub fn open_scan(&mut self) -> (idx: usize)
        requires
            old(self).wf(),
        ensures
            final(self).wf(),
            idx == place_in(old(self).entries@),
            idx < final(self).entries@.len(),
            *final(self) == (RssApp {
                entries: final(self).entries,
                start: StartDialog { open: false, ..old(self).start },
                ..*old(self)
            }),
            others_stay(old(self).entries@, final(self).entries@),
            exists|e: ViewEntry|
                #[trigger] placed(old(self).entries@, e) && prepared(
                    e,
                    final(self).entries@[idx as int],
                    &old(self).config,
                    old(self).applied_dark != Some(false),
                ),
    {
        self.start.open = false;
        let idx: usize = self.place();
        let ghost mid = self.entries@;
        proof {
            assert forall|i: int| 0 <= i < old(self).entries@.len() implies (
            #[trigger] mid[i]) == old(self).entries@[i] by {
                if idx == old(self).entries@.len() {
                    assert(mid.drop_last()[i] == mid[i]);
                }
            }
        }
        self.prepare_scan(idx);
        proof {
            assert(placed(old(self).entries@, mid[idx as int]));
        }
        idx
    }

    /// Takes note of a scan that started in an entry.
    pub fn scan_started(&mut self, idx: usize, path: String, fresh: bool)
        requires
            old(self).wf(),
            idx < old(self).entries@.len(),
            old(self).entries@[idx as int].view.model_epoch < u64::MAX,
        ensures
            final(self).wf(),
            *final(self) == (RssApp { entries: final(self).entries, ..*old(self) }),
            one_changed(old(self).entries@, final(self).entries@, idx as int),
            entry::scan_begun(
                &old(self).entries@[idx as int],
                &final(self).entries@[idx as int],
                path,
                fresh,
            ),
    {
        let ghost before = self.entries@;
        proof {
            assert(before[idx as int].view.wf());
        }
        self.entries[idx].scan_started(path, fresh);
        proof {
            assert(one_changed(before, self.entries@, idx as int));
            lemma_one_changed(before, self.entries@, idx as int);
        }
    }

    /// Takes note of a scan that could not be started.
    pub fn scan_not_started(&mut self, reason: &str)
        ensures
            final(self).notice matches Some(n) && n@ == "could not start scan thread: "@ + reason@,
            *final(self) == (RssApp { notice: final(self).notice, ..*old(self) }),
    {
        let mut n = "could not start scan thread: ".to_owned();
        n.append(reason);
        self.notice = Some(n);
    }

    /// Shows the view of a snapshot, which nothing is scanned or watched for.
    pub fn attach_snapshot(&mut self, view: ScanView)
        requires
            old(self).wf(),
            view.wf(),
        ensures
            final(self).wf(),
            ({
                let idx = place_in(old(self).entries@);
                &&& 0 <= idx < final(self).entries@.len()
                &&& with_settings(
                    view,
                    final(self).entries@[idx].view,
                    &old(self).config,
                    old(self).applied_dark != Some(false),
                )
                &&& final(self).entries@[idx] == (ViewEntry {
                    view: final(self).entries@[idx].view,
                    scan: None,
                    watching: false,
                    watch_notice: None,
                    open: true,
                    ever_scanned: true,
                    pending_fresh: false,
                })
                &&& others_stay(old(self).entries@, final(self).entries@)
            }),
            *final(self) == (RssApp {
                entries: final(self).entries,
                start: StartDialog { open: false, ..old(self).start },
                ..*old(self)
            }),
    {
        self.start.open = false;
        let idx: usize = self.place();
        let ghost mid = self.entries@;
        proof {
            assert forall|i: int| 0 <= i < old(self).entries@.len() implies (
            #[trigger] mid[i]) == old(self).entries@[i] by {
                if idx == old(self).entries@.len() {
                    assert(mid.drop_last()[i] == mid[i]);
                }
            }
        }
        let fresh = ViewEntry::completed(view);
        self.entries.set(idx, fresh);
        proof {
            assert(one_changed(mid, self.entries@, idx as int));
            lemma_one_changed(mid, self.entries@, idx as int);
        }
        self.apply_config_defaults_to_entry(idx);
    }

    /// Takes a change of the file system into the first view, and says what came
    /// of it.
    pub fn inject_watch_event(&mut self, event: &WatchEvent, found: Option<NodeParams>) -> (r:
        WatchOutcome)
        requires
            old(self).wf(),
            old(self).entries@.len() > 0 ==> view::watchable(&old(self).entries@[0].view),
        ensures
            final(self).wf(),
            if old(self).entries@.len() == 0 {
                r is Ignored && *final(self) == *old(self)
            } else {
                &&& *final(self) == (RssApp { entries: final(self).entries, ..*old(self) })
                &&& final(self).entries@ == old(self).entries@.update(
                    0,
                    ViewEntry {
                        view: final(self).entries@[0].view,
                        ..old(self).entries@[0]
                    },
                )
                &&& view::change_seen(
                    &old(self).entries@[0].view,
                    &final(self).entries@[0].view,
                    *event,
                    found,
                    r@,
                )
            },
    {
        if self.entries.len() == 0 {
            return WatchOutcome::Ignored;
        }
        let ghost before = self.entries@;
        proof {
            assert(before[0].view.wf());
        }
        let r = self.entries[0].view.apply_watch_event(event, found);
        proof {
            assert(one_changed(before, self.entries@, 0));
            lemma_one_changed(before, self.entries@, 0);
        }
        r
    }

    /// Exports the first view. If that fails the user is told.
    pub fn export_root_view(&mut self, kind: &ExportKind, now: FileTime, out: &mut Vec<u8>) -> (r:
        Result<Option<JsonNode>, ExportError>)
        requires
            old(self).wf(),
        ensures
            final(self).wf(),
            if old(self).entries@.len() == 0 {
                r matches Ok(doc) && doc is None && final(out)@ == old(out)@
            } else {
                view_export::exported(
                    &old(self).entries@[0].view,
                    *kind,
                    now,
                    old(out)@,
                    final(out)@,
                    r,
                )
            },
            match r {
                Ok(_) => *final(self) == *old(self),
                Err(e) => {
                    &&& final(self).notice matches Some(n) && n@ == "export failed: "@
                        + messages::export_text(e)
                    &&& *final(self) == (RssApp { notice: final(self).notice, ..*old(self) })
                },
            },
    {
        if self.entries.len() == 0 {
            return Ok(None);
        }
        proof {
            assert(self.entries@[0].view.wf());
        }
        let r = view_export::export_view(&self.entries[0].view, kind, now, out);
        if let Err(e) = &r {
            let mut n = "export failed: ".to_owned();
            n.append(e.describe().as_str());
            self.notice = Some(n);
        }
        r
    }

    /// Saves the first view as a snapshot. If that fails the user is told.
    pub fn save_root_snapshot(&mut self, tool_version: &str, now_ms: u64, out: &mut Vec<u8>) -> (r:
        Result<(), SnapshotError>)
        requires
            old(self).wf(),
            old(self).entries@.len() > 0 ==> old(self).entries@[0].view.state().root is Some,
            now_ms <= view_export::LAST_MS,
        ensures
            final(self).wf(),
            if old(self).entries@.len() == 0 {
                r is Ok && final(out)@ == old(out)@
            } else {
                view_export::saved(
                    &old(self).entries@[0].view,
                    tool_version@,
                    now_ms,
                    old(out)@,
                    final(out)@,
                    r,
                )
            },
            match r {
                Ok(_) => *final(self) == *old(self),
                Err(e) => {
                    &&& final(self).notice matches Some(n) && n@ == "snapshot save failed: "@
                        + messages::snapshot_text(e)
                    &&& *final(self) == (RssApp { notice: final(self).notice, ..*old(self) })
                },
            },
    {
        if self.entries.len() == 0 {
            return Ok(());
        }
        proof {
            assert(self.entries@[0].view.wf());
        }
        let r = view_export::save_snapshot(&self.entries[0].view, tool_version, now_ms, out);
        if let Err(e) = &r {
            let mut n = "snapshot save failed: ".to_owned();
            n.append(e.describe().as_str());
            self.notice = Some(n);
        }
        r
    }

    /// Takes note of a snapshot that could not be loaded.
    pub fn snapshot_failed(&mut self, reason: &str)
        ensures
            final(self).notice matches Some(n) && n@ == "snapshot load failed: "@ + reason@,
            *final(self) == (RssApp { notice: final(self).notice, ..*old(self) }),
    {
        let mut n = "snapshot load failed: ".to_owned();
        n.append(reason);
        self.notice = Some(n);
    }

    /// Takes in the folders that were dropped onto the window, and says which are
    /// to be scanned. While there is nothing but the start dialog they go into its
    /// field.
    pub fn take_dropped_folders(&mut self, dropped: &Vec<String>) -> (scans: Vec<String>)
        ensures
            ({
                let folders = of_kind(text::texts(dropped@), false);
                if folders.len() > 0 && old(self).entries@.len() == 0 && old(self).start.open {
                    &&& scans@.len() == 0
                    &&& final(self).start.path@ == in_one_field(folders)
                    &&& *final(self) == (RssApp {
                        start: StartDialog { path: final(self).start.path, ..old(self).start },
                        ..*old(self)
                    })
                } else {
                    text::texts(scans@) == folders && *final(self) == *old(self)
                }
            }),
    {
        let (_, folders) = sort_dropped(dropped);
        proof {
            assert(text::texts(folders@).len() == folders@.len());
        }
        if folders.len() > 0 && self.entries.len() == 0 && self.start.open {
            self.start.path = join_field(&folders);
            return Vec::new();
        }
        folders
    }

    /// Whether colours are those of a dark window. What the system wants counts
    /// if the setting says so; where nothing is known of it they are.
    pub open spec fn dark(theme: ThemeSetting, system_dark: Option<bool>) -> bool {
        match theme {
            ThemeSetting::Dark => true,
            ThemeSetting::Light => false,
            ThemeSetting::System => system_dark != Some(false),
        }
    }

    /// Applies the colours of the theme to all views, if others were applied
    /// before.
    pub fn apply_theme(&mut self, system_dark: Option<bool>)
        requires
            old(self).wf(),
        ensures
            final(self).wf(),
            ({
                let dark = RssApp::dark(old(self).config.theme, system_dark);
                if old(self).applied_dark == Some(dark) {
                    *final(self) == *old(self)
                } else {
                    &&& *final(self) == (RssApp {
                        entries: final(self).entries,
                        applied_dark: Some(dark),
                        ..*old(self)
                    })
                    &&& final(self).entries@.len() == old(self).entries@.len()
                    &&& forall|i: int|
                        0 <= i < old(self).entries@.len() ==> repainted(
                            &old(self).entries@[i].view,
                            &(#[trigger] final(self).entries@[i]).view,
                            defaults::palette_of(dark),
                        ) && final(self).entries@[i] == (ViewEntry {
                            view: final(self).entries@[i].view,
                            ..old(self).entries@[i]
                        })
                }
            }),
    {
        let dark = match self.config.theme {
            ThemeSetting::Dark => true,
            ThemeSetting::Light => false,
            ThemeSetting::System => match system_dark {
                Some(d) => d,
                None => true,
            },
        };
        let same = match self.applied_dark {
            Some(d) => d == dark,
            None => false,
        };
        if same {
            return;
        }
        self.applied_dark = Some(dark);
        let palette = defaults::palette(dark);
        let ghost before = self.entries@;
        let n: usize = self.entries.len();
        for i in 0..n
            invariant
                before == old(self).entries@,
                n == before.len(),
                entries_wf(before),
                palette@ == defaults::palette_of(dark),
                self.entries@.len() == n,
                *self == (RssApp {
                    entries: self.entries,
                    applied_dark: Some(dark),
                    ..*old(self)
                }),
                forall|j: int| i <= j < n ==> (#[trigger] self.entries@[j]) == before[j],
                forall|j: int|
                    0 <= j < i ==> (#[trigger] self.entries@[j]).view.wf() && repainted(
                        &before[j].view,
                        &self.entries@[j].view,
                        defaults::palette_of(dark),
                    ) && self.entries@[j] == (ViewEntry {
                        view: self.entries@[j].view,
                        ..before[j]
                    }),
        {
            proof {
                assert(before[i as int].view.wf());
                assert(self.entries@[i as int] == before[i as int]);
            }
            recolor(&mut self.entries[i].view, &palette);
        }
    }

    /// Switches flashing on or off, now and for later.
    pub fn set_flash(&mut self, on: bool)
        requires
            old(self).wf(),
        ensures
            final(self).wf(),
            *final(self) == (RssApp {
                entries: final(self).entries,
                config: Config { flash_enabled: Some(on), ..old(self).config },
                ..*old(self)
            }),
            final(self).entries@.len() == old(self).entries@.len(),
            forall|i: int|
                0 <= i < old(self).entries@.len() ==> (#[trigger] final(self).entries@[i])
                    == adopted(old(self).entries@[i], Some(on), None, None),
    {
        self.config.flash_enabled = Some(on);
        adopt_all(&mut self.entries, Some(on), None, None);
    }

    /// Sets how long a change of zoom takes, now and for later.
    pub fn set_zoom_anim(&mut self, ms: u64)
        requires
            old(self).wf(),
        ensures
            final(self).wf(),
            *final(self) == (RssApp {
                entries: final(self).entries,
                config: Config { zoom_anim_ms: Some(ms), ..old(self).config },
                ..*old(self)
            }),
            final(self).entries@.len() == old(self).entries@.len(),
            forall|i: int|
                0 <= i < old(self).entries@.len() ==> (#[trigger] final(self).entries@[i])
                    == adopted(old(self).entries@[i], None, Some(ms), None),
    {
        self.config.zoom_anim_ms = Some(ms);
        adopt_all(&mut self.entries, None, Some(ms), None);
    }

    /// Sets how many levels are shown, now and for later.
    pub fn set_display_depth(&mut self, depth: u32)
        requires
            old(self).wf(),
        ensures
            final(self).wf(),
            *final(self) == (RssApp {
                entries: final(self).entries,
                config: Config { display_depth: Some(depth), ..old(self).config },
                ..*old(self)
            }),
            final(self).entries@.len() == old(self).entries@.len(),
            forall|i: int|
                0 <= i < old(self).entries@.len() ==> (#[trigger] final(self).entries@[i])
                    == adopted(old(self).entries@[i], None, None, Some(depth)),
    {
        self.config.display_depth = Some(depth);
        adopt_all(&mut self.entries, None, None, Some(depth));
    }

    /// Sets whether changes of the file system are watched from the next scan on.
    pub fn set_watch(&mut self, on: bool)
        ensures
            *final(self) == (RssApp {
                config: Config { watch_enabled: Some(on), ..old(self).config },
                ..*old(self)
            }),
    {
        self.config.watch_enabled = Some(on);
    }

    /// Whether the window is to be drawn again soon: while something is scanned
    /// or deleted.
    pub fn is_busy(&self) -> (r: bool)
        ensures
            r == ((exists|i: int|
                0 <= i < self.entries@.len() && (#[trigger] self.entries@[i]).scan is Some) || (
            self.delete_dialog matches Some(d) && d.running && d.result is None)),
    {
        if self.is_scanning() {
            return true;
        }
        match &self.delete_dialog {
            Some(d) => d.running && !d.is_done(),
            None => false,
        }
    }
}

/// The entries whose windows are open.
pub open spec fn still_open(list: Seq<ViewEntry>) -> Seq<ViewEntry>
    decreases list.len(),
{
    if list.len() == 0 {
        Seq::empty()
    } else {
        let before = still_open(list.drop_last());
        if list.last().open {
            before.push(list.last())
        } else {
            before
        }
    }
}

/// Whether `new` is a view after a key that acts on the view alone.
pub open spec fn key_pressed(v: &ScanView, new: &ScanView, a: KeyAction) -> bool {
    match a {
        KeyAction::ToggleTag(tag) => match v.selected {
            None => *new == *v,
            Some(id) => {
                &&& *new == (ScanView { builder: new.builder, verdicts_dirty: true, ..*v })
                &&& new.builder@ == (BuilderView {
                    state: view::with_tag(
                        v.state(),
                        id,
                        view::toggled(v.state().nodes[id as int].tag, tag),
                    ),
                    ..v.builder@
                })
            },
        },
        KeyAction::ClearTags => if v.state().root is None {
            *new == *v
        } else {
            &&& *new == (ScanView { builder: new.builder, verdicts_dirty: true, ..*v })
            &&& new.builder@ == (BuilderView {
                state: view::without_tags(v.state(), v.zoom),
                ..v.builder@
            })
        },
        KeyAction::ToggleFreeSpace => *new == (ScanView {
            show_free_space: !v.show_free_space,
            layout_epoch: (v.layout_epoch + 1) as u64,
            ..*v
        }),
        KeyAction::ToggleUnknownSpace => *new == (ScanView {
            show_unknown: !v.show_unknown,
            layout_epoch: (v.layout_epoch + 1) as u64,
            ..*v
        }),
        _ => *new == *v,
    }
}

fn press_key(v: &mut ScanView, a: KeyAction)
    requires
        old(v).wf(),
        controls::pressable(old(v)),
    ensures
        final(v).wf(),
        key_pressed(old(v), final(v), a),
{
    match a {
        KeyAction::ToggleTag(tag) => v.toggle_selected_tag(tag),
        KeyAction::ClearTags => {
            if v.has_root() {
                let zoom: NodeId = v.zoom;
                v.clear_tags_below(zoom);
            }
        },
        KeyAction::ToggleFreeSpace => v.toggle_free_space(),
        KeyAction::ToggleUnknownSpace => v.toggle_unknown_space(),
        _ => {},
    }
}

impl RssApp {
    /// Forgets the views whose windows were closed.
    pub fn drop_closed(&mut self)
        requires
            old(self).wf(),
        ensures
            final(self).wf(),
            *final(self) == (RssApp { entries: final(self).entries, ..*old(self) }),
            final(self).entries@ == still_open(old(self).entries@),
    {
        let ghost all = self.entries@;
        let n: usize = self.entries.len();
        let mut i: usize = 0;
        let mut k: usize = 0;
        proof {
            assert(all.take(0) =~= Seq::empty());
            assert(self.entries@.take(0) =~= Seq::empty());
            assert(self.entries@.skip(0) =~= all.skip(0));
        }
        while k < n
            invariant
                n == all.len(),
                k <= n,
                i <= k,
                entries_wf(all),
                self.entries@.len() == n - k + i,
                *self == (RssApp { entries: self.entries, ..*old(self) }),
                self.entries@.take(i as int) == still_open(all.take(k as int)),
                self.entries@.skip(i as int) == all.skip(k as int),
                entries_wf(self.entries@),
            decreases n - k,
        {
            let ghost mid = self.entries@;
            proof {
                assert(mid[i as int] == mid.skip(i as int)[0]);
                assert(all.skip(k as int)[0] == all[k as int]);
                assert(all.take(k + 1).drop_last() =~= all.take(k as int));
                assert(all.take(k + 1).last() == all[k as int]);
                assert(all.skip(k as int).drop_first() =~= all.skip(k + 1));
            }
            if self.entries[i].open {
                proof {
                    assert(mid.take(i + 1) =~= mid.take(i as int).push(mid[i as int]));
                    assert(mid.skip(i + 1) =~= mid.skip(i as int).drop_first());
                }
                i = i + 1;
            } else {
                let _ = self.entries.remove(i);
                proof {
                    assert(self.entries@ =~= mid.remove(i as int));
                    assert(self.entries@.take(i as int) =~= mid.take(i as int));
                    assert(self.entries@.skip(i as int) =~= mid.skip(i as int).drop_first());
                    assert forall|j: int| 0 <= j < self.entries@.len() implies (
                    #[trigger] self.entries@[j]).view.wf() by {
                        if j < i {
                            assert(mid[j].view.wf());
                        } else {
                            assert(mid[j + 1].view.wf());
                        }
                    }
                }
            }
            k = k + 1;
        }
        proof {
            assert(all.take(n as int) =~= all);
            assert(self.entries@.take(i as int) =~= self.entries@);
        }
    }

    /// Does what a key stands for, as far as the program can by itself.
    pub fn apply_key(&mut self, action: KeyAction) -> (r: KeyEffect)
        requires
            old(self).wf(),
            old(self).entries@.len() > 0 ==> controls::pressable(&old(self).entries@[0].view),
        ensures
            final(self).wf(),
            match action {
                KeyAction::OpenStartDialog => {
                    &&& r is Nothing
                    &&& *final(self) == (RssApp {
                        start: StartDialog { open: true, ..old(self).start },
                        ..*old(self)
                    })
                },
                KeyAction::CloseStartDialog => {
                    &&& *final(self) == (RssApp {
                        start: StartDialog { open: false, ..old(self).start },
                        ..*old(self)
                    })
                    &&& old(self).entries@.len() == 0 ==> r is Quit
                    &&& old(self).entries@.len() > 0 ==> r is Nothing
                },
                KeyAction::Rescan => {
                    &&& *final(self) == *old(self)
                    &&& old(self).entries@.len() == 0 ==> r is Nothing
                    &&& old(self).entries@.len() > 0 ==> r is Rescan
                },
                KeyAction::RescanZoom => {
                    &&& *final(self) == *old(self)
                    &&& if old(self).entries@.len() > 0 && old(self).entries@[0].view.state().root
                        is Some && !old(self).entries@[0].view.is_loaded() {
                        let v = old(self).entries@[0].view;
                        r matches KeyEffect::RescanSubtree(p) && p@ == v.state().path_to(v.zoom)
                    } else {
                        r is Nothing
                    }
                },
                KeyAction::Press(b) => {
                    &&& r is Nothing
                    &&& *final(self) == (RssApp { entries: final(self).entries, ..*old(self) })
                    &&& old(self).entries@.len() == 0 ==> final(self).entries@.len() == 0
                    &&& old(self).entries@.len() > 0 ==> one_changed(
                        old(self).entries@,
                        final(self).entries@,
                        0,
                    ) && controls::pressed(
                        &old(self).entries@[0].view,
                        &final(self).entries@[0].view,
                        b,
                    )
                },
                _ => {
                    &&& r is Nothing
                    &&& *final(self) == (RssApp { entries: final(self).entries, ..*old(self) })
                    &&& old(self).entries@.len() == 0 ==> final(self).entries@.len() == 0
                    &&& old(self).entries@.len() > 0 ==> one_changed(
                        old(self).entries@,
                        final(self).entries@,
                        0,
                    ) && key_pressed(
                        &old(self).entries@[0].view,
                        &final(self).entries@[0].view,
                        action,
                    )
                },
            },
    {
        match action {
            KeyAction::OpenStartDialog => {
                self.start.open = true;
                return KeyEffect::Nothing;
            },
            KeyAction::CloseStartDialog => {
                self.start.open = false;
                return if self.entries.len() == 0 {
                    KeyEffect::Quit
                } else {
                    KeyEffect::Nothing
                };
            },
            _ => {},
        }
        if self.entries.len() == 0 {
            return KeyEffect::Nothing;
        }
        let ghost before = self.entries@;
        proof {
            assert(before[0].view.wf());
        }
        match action {
            KeyAction::Rescan => KeyEffect::Rescan,
            KeyAction::RescanZoom => {
                let v = &self.entries[0].view;
                if v.has_root() && !v.from_snapshot() {
                    KeyEffect::RescanSubtree(v.tree().path(v.zoom))
                } else {
                    KeyEffect::Nothing
                }
            },
            KeyAction::Press(b) => {
                self.press_first(b);
                KeyEffect::Nothing
            },
            _ => {
                self.press_first_key(action);
                KeyEffect::Nothing
            },
        }
    }

    fn press_first(&mut self, b: Button)
        requires
            old(self).wf(),
            old(self).entries@.len() > 0,
            controls::pressable(&old(self).entries@[0].view),
        ensures
            final(self).wf(),
            *final(self) == (RssApp { entries: final(self).entries, ..*old(self) }),
            one_changed(old(self).entries@, final(self).entries@, 0),
            controls::pressed(&old(self).entries@[0].view, &final(self).entries@[0].view, b),
    {
        let ghost before = self.entries@;
        proof {
            assert(before[0].view.wf());
        }
        controls::press(&mut self.entries[0], b);
        proof {
            assert(one_changed(before, self.entries@, 0));
            lemma_one_changed(before, self.entries@, 0);
        }
    }

    fn press_first_key(&mut self, a: KeyAction)
        requires
            old(self).wf(),
            old(self).entries@.len() > 0,
            controls::pressable(&old(self).entries@[0].view),
        ensures
            final(self).wf(),
            *final(self) == (RssApp { entries: final(self).entries, ..*old(self) }),
            one_changed(old(self).entries@, final(self).entries@, 0),
            key_pressed(&old(self).entries@[0].view, &final(self).entries@[0].view, a),
    {
        let ghost before = self.entries@;
        proof {
            assert(before[0].view.wf());
        }
        press_key(&mut self.entries[0].view, a);
        proof {
            assert(one_changed(before, self.entries@, 0));
            lemma_one_changed(before, self.entries@, 0);
        }
    }

    /// Does what the user wants done with an element, as far as the program can
    /// by itself.
    pub fn dispatch(&mut self, idx: usize, cmd: TreemapCmd) -> (r: CmdEffect)
        requires
            old(self).wf(),
            idx < old(self).entries@.len(),
            old(self).entries@[idx as int].view.state().live(target(cmd)),
        ensures
            final(self).wf(),
            ({
                let v = old(self).entries@[idx as int].view;
                let path = v.state().path_to(target(cmd));
                match cmd {
                    TreemapCmd::Select(id) => {
                        &&& r is Nothing
                        &&& one_changed(old(self).entries@, final(self).entries@, idx as int)
                        &&& final(self).entries@[idx as int].view == (ScanView {
                            selected: Some(id),
                            ..v
                        })
                    },
                    TreemapCmd::Zoom(id, rect) => {
                        &&& r is Nothing
                        &&& one_changed(old(self).entries@, final(self).entries@, idx as int)
                        &&& view::navigated(
                            &v,
                            &final(self).entries@[idx as int].view,
                            id,
                            AnimKind::FromRect(rect),
                        )
                    },
                    TreemapCmd::Open(_) => {
                        &&& r matches CmdEffect::Open(p) && p@ == path
                        &&& *final(self) == *old(self)
                    },
                    TreemapCmd::OpenContaining(_) => {
                        &&& r matches CmdEffect::Reveal(p) && p@ == path
                        &&& *final(self) == *old(self)
                    },
                    TreemapCmd::ShellMenu(_) => {
                        &&& r matches CmdEffect::ShellMenu(p) && p@ == path
                        &&& *final(self) == *old(self)
                    },
                    TreemapCmd::Delete(id) => {
                        &&& r is Nothing
                        &&& final(self).entries@ == old(self).entries@
                        &&& final(self).delete_dialog is Some
                        &&& final(self).delete_dialog->0.node == id
                        &&& final(self).delete_dialog->0.item.path@ == path
                        &&& final(self).delete_dialog->0.item.total_bytes
                            == v.state().nodes[id as int].agg_allocated
                        &&& final(self).delete_dialog->0.item.filter_hidden == (v.filters()
                            && fileops::partly_hidden(&v, id))
                        &&& !final(self).delete_dialog->0.running
                    },
                }
            }),
            !(cmd is Delete) ==> *final(self) == (RssApp {
                entries: final(self).entries,
                ..*old(self)
            }),
            cmd is Delete ==> *final(self) == (RssApp {
                delete_dialog: final(self).delete_dialog,
                ..*old(self)
            }),
    {
        let ghost before = self.entries@;
        proof {
            assert(before[idx as int].view.wf());
        }
        match cmd {
            TreemapCmd::Select(id) => {
                self.select(idx, id);
                CmdEffect::Nothing
            },
            TreemapCmd::Zoom(id, rect) => {
                self.zoom_into(idx, id, rect);
                CmdEffect::Nothing
            },
            TreemapCmd::Open(id) => CmdEffect::Open(self.entries[idx].view.tree().path(id)),
            TreemapCmd::OpenContaining(id) => CmdEffect::Reveal(
                self.entries[idx].view.tree().path(id),
            ),
            TreemapCmd::ShellMenu(id) => CmdEffect::ShellMenu(
                self.entries[idx].view.tree().path(id),
            ),
            TreemapCmd::Delete(id) => {
                self.delete_dialog = Some(fileops::delete_plan_for(&self.entries[idx].view, id));
                CmdEffect::Nothing
            },
        }
    }

    fn select(&mut self, idx: usize, id: NodeId)
        requires
            old(self).wf(),
            idx < old(self).entries@.len(),
            old(self).entries@[idx as int].view.state().live(id),
        ensures
            final(self).wf(),
            *final(self) == (RssApp { entries: final(self).entries, ..*old(self) }),
            one_changed(old(self).entries@, final(self).entries@, idx as int),
            final(self).entries@[idx as int].view == (ScanView {
                selected: Some(id),
                ..old(self).entries@[idx as int].view
            }),
    {
        let ghost before = self.entries@;
        proof {
            assert(before[idx as int].view.wf());
            assert(before[idx as int].view.state().links());
        }
        self.entries[idx].view.selected = Some(id);
        proof {
            assert(one_changed(before, self.entries@, idx as int));
            lemma_one_changed(before, self.entries@, idx as int);
        }
    }

    fn zoom_into(&mut self, idx: usize, id: NodeId, rect: view::CellRect)
        requires
            old(self).wf(),
            idx < old(self).entries@.len(),
            old(self).entries@[idx as int].view.state().live(id),
        ensures
            final(self).wf(),
            *final(self) == (RssApp { entries: final(self).entries, ..*old(self) }),
            one_changed(old(self).entries@, final(self).entries@, idx as int),
            view::navigated(
                &old(self).entries@[idx as int].view,
                &final(self).entries@[idx as int].view,
                id,
                AnimKind::FromRect(rect),
            ),
    {
        let ghost before = self.entries@;
        proof {
            assert(before[idx as int].view.wf());
        }
        self.entries[idx].view.navigate_from_rect(id, rect);
        proof {
            assert(one_changed(before, self.entries@, idx as int));
            lemma_one_changed(before, self.entries@, idx as int);
        }
    }
}

/// The element that a command is about.
pub open spec fn target(cmd: TreemapCmd) -> NodeId {
    match cmd {
        TreemapCmd::Select(id) => id,
        TreemapCmd::Zoom(id, _) => id,
        TreemapCmd::Open(id) => id,
        TreemapCmd::OpenContaining(id) => id,
        TreemapCmd::Delete(id) => id,
        TreemapCmd::ShellMenu(id) => id,
    }
}

/// The colours are dark where that is set, or where the system is not known to be
/// light.
pub proof fn law_themes(system_dark: Option<bool>)
    ensures
        RssApp::dark(ThemeSetting::Dark, system_dark),
        !RssApp::dark(ThemeSetting::Light, system_dark),
        RssApp::dark(ThemeSetting::System, Some(true)),
        !RssApp::dark(ThemeSetting::System, Some(false)),
        RssApp::dark(ThemeSetting::System, None),
{
}

/// A field of one path gives that path without the white space around it, and a
/// semicolon separates paths.
pub proof fn law_paths_in_field(a: Seq<char>, b: Seq<char>)
    requires
        !a.contains(';'),
    ensures
        text::trim(a).len() > 0 ==> paths_in(a) == seq![text::trim(a)],
        text::trim(a).len() > 0 ==> paths_in(a + seq![';'] + b) == seq![text::trim(a)] + paths_in(b),
        text::trim(a).len() == 0 ==> paths_in(a + seq![';'] + b) == paths_in(b),
{
    text::lemma_find(a, ';');
    if text::find(a, ';') < a.len() {
        assert(a.contains(a[text::find(a, ';') as int]));
    }
    assert(a.take(a.len() as int) =~= a);
    let s = a + seq![';'] + b;
    text::lemma_find(s, ';');
    assert(s[a.len() as int] == ';');
    assert forall|i: int| 0 <= i < a.len() implies s[i] != ';' by {
        assert(s[i] == a[i]);
        assert(a.contains(a[i]));
    }
    assert(text::find(s, ';') == a.len());
    assert(s.take(a.len() as int) =~= a);
    assert(s.skip(a.len() as int + 1) =~= b);
    assert(seq![text::trim(a)] + Seq::<Seq<char>>::empty() =~= seq![text::trim(a)]);
}

/// Dropped paths are told apart: every one is a snapshot or a folder to scan, in the
/// order in which they came.
pub proof fn law_dropped_paths(paths: Seq<Seq<char>>, last: Seq<char>)
    ensures
        of_kind(paths, true).len() + of_kind(paths, false).len() == paths.len(),
        is_snapshot_path(last) ==> of_kind(paths.push(last), true) == of_kind(paths, true).push(last)
            && of_kind(paths.push(last), false) == of_kind(paths, false),
        !is_snapshot_path(last) ==> of_kind(paths.push(last), false) == of_kind(paths, false).push(
            last,
        ) && of_kind(paths.push(last), true) == of_kind(paths, true),
    decreases paths.len(),
{
    assert(paths.push(last).drop_last() =~= paths);
    if paths.len() > 0 {
        law_dropped_paths(paths.drop_last(), paths.last());
        assert(paths.drop_last().push(paths.last()) =~= paths);
    }
}

/// A snapshot is known by the end of its name.
pub proof fn law_snapshot_names(path: Seq<char>, stem: Seq<char>)
    requires
        stem.len() > 0,
        paths::file_name(path) == Some(stem + ".rssnap"@),
    ensures
        is_snapshot_path(path),
{
    reveal_strlit(".rssnap");
    let n = stem + ".rssnap"@;
    assert(n.skip(n.len() - 7) =~= ".rssnap"@);
}

/// A new scan takes the first view as long as nothing was scanned in it, and
/// otherwise a view of its own behind the others.
pub proof fn law_places(list: Seq<ViewEntry>)
    ensures
        list.len() == 0 ==> place_in(list) == 0,
        list.len() > 0 && !list[0].ever_scanned ==> place_in(list) == 0,
        list.len() > 0 && list[0].ever_scanned ==> place_in(list) == list.len(),
{
}

/// Views that were closed go, and the others stay in their order.
pub proof fn law_closed_views(list: Seq<ViewEntry>, last: ViewEntry)
    ensures
        last.open ==> still_open(list.push(last)) == still_open(list).push(last),
        !last.open ==> still_open(list.push(last)) == still_open(list),
        forall|i: int| 0 <= i < still_open(list).len() ==> (#[trigger] still_open(list)[i]).open,
    decreases list.len(),
{
    assert(list.push(last).drop_last() =~= list);
    if list.len() > 0 {
        law_closed_views(list.drop_last(), list.last());
        assert(list.drop_last().push(list.last()) =~= list);
    }
}

/// Settings that are given replace those of a view; those that are not stay.
pub proof fn law_adopted(e: ViewEntry, flash: Option<bool>, anim: Option<u64>, depth: Option<u32>)
    ensures
        ({
            let n = adopted(e, flash, anim, depth);
            &&& flash is Some ==> Some(n.view.flash_enabled) == flash
            &&& flash is None ==> n.view.flash_enabled == e.view.flash_enabled
            &&& anim is Some ==> Some(n.view.zoom_anim_ms) == anim
            &&& anim is None ==> n.view.zoom_anim_ms == e.view.zoom_anim_ms
            &&& depth is Some ==> Some(n.view.display_depth) == depth
            &&& depth is None ==> n.view.display_depth == e.view.display_depth
            &&& n.view.zoom == e.view.zoom
            &&& n.view.size_mode == e.view.size_mode
            &&& n.scan == e.scan
        }),
{
    reveal(adopted);
}

/// A view takes up the settings and the colours of the theme.
pub proof fn law_settings_taken(v: ScanView, new: ScanView, c: &Config, dark: bool)
    requires
        with_settings(v, new, c, dark),
    ensures
        c.flash_enabled is Some ==> Some(new.flash_enabled) == c.flash_enabled,
        c.flash_enabled is None ==> new.flash_enabled == v.flash_enabled,
        c.zoom_anim_ms is Some ==> Some(new.zoom_anim_ms) == c.zoom_anim_ms,
        c.display_depth is Some ==> Some(new.display_depth) == c.display_depth,
        c.display_depth is None ==> new.display_depth == v.display_depth,
        new.flat_colors == defaults::palette_of(dark).flat,
        new.tag_colors@ == defaults::palette_of(dark).tags,
        new.zoom == v.zoom,
        new.filter_text == v.filter_text,
{
}

/// Keys that act on a view alone.
pub proof fn law_key_effects(v: &ScanView, new: &ScanView, a: KeyAction)
    requires
        key_pressed(v, new, a),
    ensures
        a == KeyAction::ToggleFreeSpace ==> new.show_free_space != v.show_free_space
            && new.show_unknown == v.show_unknown,
        a == KeyAction::ToggleUnknownSpace ==> new.show_unknown != v.show_unknown
            && new.show_free_space == v.show_free_space,
        a == KeyAction::ClearTags && v.state().root is Some ==> new.state() == view::without_tags(
            v.state(),
            v.zoom,
        ),
        a matches KeyAction::ToggleTag(tag) ==> (v.selected matches Some(id) ==> new.state()
            == view::with_tag(
            v.state(),
            id,
            view::toggled(v.state().nodes[id as int].tag, tag),
        )),
        a matches KeyAction::ToggleTag(_) ==> (v.selected is None ==> *new == *v),
        new.zoom == v.zoom,
{
}

/// What is wanted of an element is done to that element: it is selected, zoomed
/// into, opened, shown, or planned to be deleted.
pub proof fn law_dispatch(a: &mut RssApp, idx: usize, cmd: TreemapCmd, r: CmdEffect)
    requires
        old(a).wf(),
        idx < old(a).entries@.len(),
        old(a).entries@[idx as int].view.state().live(target(cmd)),
        call_ensures(RssApp::dispatch, (a, idx, cmd), r),
    ensures
        cmd matches TreemapCmd::Select(id) ==> final(a).entries@[idx as int].view.selected == Some(
            id,
        ),
        cmd matches TreemapCmd::Zoom(id, _) ==> final(a).entries@[idx as int].view.zoom == id,
        cmd matches TreemapCmd::Open(id) ==> (r matches CmdEffect::Open(p) && p@ == old(
            a,
        ).entries@[idx as int].view.state().path_to(id)),
        cmd matches TreemapCmd::OpenContaining(id) ==> (r matches CmdEffect::Reveal(p) && p@ == old(
            a,
        ).entries@[idx as int].view.state().path_to(id)),
        cmd matches TreemapCmd::ShellMenu(id) ==> (r matches CmdEffect::ShellMenu(p) && p@ == old(
            a,
        ).entries@[idx as int].view.state().path_to(id)),
        cmd matches TreemapCmd::Delete(id) ==> final(a).delete_dialog is Some && (
        final(a).delete_dialog->0).node == id && (final(a).delete_dialog->0).item.total_bytes
            == old(a).entries@[idx as int].view.state().nodes[id as int].agg_allocated,
{
}

proof fn lemma_paths_behind(x: Seq<char>, y: Seq<char>)
    requires
        !y.contains(';'),
        text::trim(y).len() > 0,
    ensures
        paths_in(x.push(';') + y) == paths_in(x).push(text::trim(y)),
    decreases x.len(),
{
    let n = text::find(x, ';') as int;
    text::lemma_find(x, ';');
    let a = x.take(n);
    assert(!a.contains(';')) by {
        if a.contains(';') {
            let i = choose|i: int| 0 <= i < a.len() && a[i] == ';';
            assert(x[i] == ';');
        }
    }
    law_paths_in_field(y, y);
    if n >= x.len() {
        assert(a =~= x);
        assert(x.push(';') + y =~= x + seq![';'] + y);
        law_paths_in_field(x, y);
        if text::trim(x).len() > 0 {
            assert(seq![text::trim(x)] + seq![text::trim(y)] =~= seq![text::trim(x)].push(
                text::trim(y),
            ));
        } else {
            assert(paths_in(x) =~= Seq::empty());
            assert(Seq::<Seq<char>>::empty().push(text::trim(y)) =~= seq![text::trim(y)]);
        }
    } else {
        let b = x.skip(n + 1);
        lemma_paths_behind(b, y);
        assert(x =~= a + seq![';'] + b);
        assert(x.push(';') + y =~= a + seq![';'] + (b.push(';') + y));
        law_paths_in_field(a, b);
        law_paths_in_field(a, b.push(';') + y);
        if text::trim(a).len() > 0 {
            assert(seq![text::trim(a)] + paths_in(b).push(text::trim(y)) =~= (seq![text::trim(a)]
                + paths_in(b)).push(text::trim(y)));
        }
    }
}

/// Folders that were dropped into one field are found in it again.
pub proof fn law_dropped_into_field(paths: Seq<Seq<char>>)
    requires
        forall|i: int|
            0 <= i < paths.len() ==> !(#[trigger] paths[i]).contains(';') && paths[i].len() > 0
                && text::trim(paths[i]) == paths[i],
        paths.len() > 0,
    ensures
        paths_in(in_one_field(paths)) == paths,
    decreases paths.len(),
{
    let last = paths.last();
    if paths.len() == 1 {
        law_paths_in_field(paths[0], paths[0]);
        assert(paths =~= seq![paths[0]]);
    } else {
        let most = paths.drop_last();
        assert forall|i: int| 0 <= i < most.len() implies !(#[trigger] most[i]).contains(';')
            && most[i].len() > 0 && text::trim(most[i]) == most[i] by {
            assert(most[i] == paths[i]);
        }
        law_dropped_into_field(most);
        lemma_paths_behind(in_one_field(most), last);
        assert(most.push(last) =~= paths);
    }
}

} // verus!
