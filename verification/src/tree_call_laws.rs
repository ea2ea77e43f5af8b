//! What calls on trees, scans and snapshots do, and what the commands of a command
//! line are, said of the values before and after.
use vstd::prelude::*;

use crate::cli_meta;
use crate::cli_meta::CmdView;
use crate::config;
use crate::config::{Config, ThemeSetting};
use crate::export;
use crate::export::SizeMode;
use crate::export_error::ExportError;
use crate::mft;
use crate::mft::FileMeta;
use crate::node;
use crate::node::{Measure, NodeFlags, NodeKind, NodeParams, Tag};
use crate::scan;
use crate::scan::{ScanOptions, Upsert};
use crate::snapshot::Snapshot;
use crate::snapshot_format::SnapshotError;
use crate::snapshot_laws;
use crate::text;
use crate::toml_values;
use crate::toml_values::Content;
use crate::totals;
use crate::tree::Tree;
use crate::walk;
use crate::walk::{EntryType, MetaValues, ReadingView, WalkEntry, WalkItem, WalkScan, WalkScanner, WalkStep};
use crate::{FileTime, NodeId};

verus! {

/// A tree of one node holds what it was made from.
pub proof fn law_with_root(p: NodeParams, t: Tree)
    requires
        call_ensures(Tree::with_root, (p,), t),
        p.allocated_size + p.ads_size <= u64::MAX,
    ensures
        t@.root == Some(0u32),
        t@.nodes[0].name@ == p.name@,
        t@.nodes[0].kind == p.kind,
        t@.nodes[0].created == p.created,
        t@.nodes[0].accessed == p.accessed,
        t@.nodes[0].modified == p.modified,
        t@.nodes[0].agg_logical == p.logical_size,
        t@.nodes[0].agg_allocated == p.allocated_size + p.ads_size,
        p.kind == NodeKind::File ==> t@.nodes[0].agg_files == 1 && t@.nodes[0].agg_dirs == 0,
        p.kind == NodeKind::Directory ==> t@.nodes[0].agg_files == 0 && t@.nodes[0].agg_dirs == 1,
{
    let s = t@;
    assert(s.live(0));
    assert(s.balanced(0, Measure::Logical));
    assert(s.balanced(0, Measure::Allocated));
    assert(s.balanced(0, Measure::Files));
    assert(s.balanced(0, Measure::Dirs));
    node::law_own_amounts(s.nodes[0]@);
}

/// A node that is added holds what it was made from, is the first child of its
/// parent, and adds its own amounts to the totals of the nodes above it and to no
/// others.
pub proof fn law_add_child(t: &mut Tree, parent: NodeId, p: NodeParams, id: NodeId, x: NodeId, m: Measure)
    requires
        old(t)@.wf(),
        old(t)@.live(parent),
        old(t)@.has_room(),
        old(t)@.live(x),
        call_ensures(Tree::add_child, (t, parent, p), id),
    ensures
        final(t)@.nodes[id as int].name@ == p.name@,
        final(t)@.nodes[id as int].kind == p.kind,
        final(t)@.nodes[id as int].flags == p.flags,
        final(t)@.nodes[id as int].logical_size == p.logical_size,
        final(t)@.nodes[id as int].allocated_size == p.allocated_size,
        final(t)@.nodes[id as int].created == p.created,
        final(t)@.nodes[id as int].accessed == p.accessed,
        final(t)@.nodes[id as int].modified == p.modified,
        parent != id ==> final(t)@.kids[parent] == seq![id] + old(t)@.kids[parent],
        totals::total_at(final(t)@, x, m) == totals::total_at(old(t)@, x, m) + (if old(t)@.within(
            parent,
            x,
        ) {
            node::own_amount(p@, m)
        } else {
            0
        }),
{
    totals::law_added_totals(old(t)@, final(t)@, parent, id, p@, x, m);
}

/// New sizes of a node are its own, and the totals above it change by the
/// difference.
pub proof fn law_set_own_sizes(
    t: &mut Tree,
    id: NodeId,
    logical: u64,
    allocated: u64,
    ads: u64,
    x: NodeId,
)
    requires
        old(t)@.wf(),
        old(t)@.live(id),
        old(t)@.live(x),
        old(t)@.within(id, x),
        call_ensures(Tree::set_own_sizes, (t, id, logical, allocated, ads), ()),
    ensures
        final(t)@.nodes[id as int].logical_size == logical,
        final(t)@.nodes[id as int].allocated_size == allocated,
        final(t)@.nodes[id as int].ads_size == ads,
        final(t)@.nodes[id as int].name@ == old(t)@.nodes[id as int].name@,
        final(t)@.nodes[id as int].modified == old(t)@.nodes[id as int].modified,
        totals::total_at(final(t)@, x, Measure::Logical) == totals::total_at(
            old(t)@,
            x,
            Measure::Logical,
        ) + logical - old(t)@.nodes[id as int].logical_size,
        totals::total_at(final(t)@, x, Measure::Allocated) == totals::total_at(
            old(t)@,
            x,
            Measure::Allocated,
        ) + allocated + ads - old(t)@.nodes[id as int].allocated_size
            - old(t)@.nodes[id as int].ads_size,
{
    let d = node::NodeData {
        logical_size: logical,
        allocated_size: allocated,
        ads_size: ads,
        ..old(t)@.nodes[id as int]@
    };
    totals::law_replaced_totals(old(t)@, final(t)@, id, d, x, Measure::Logical);
    totals::law_replaced_totals(old(t)@, final(t)@, id, d, x, Measure::Allocated);
}

/// The tag and the details of a node are set on it alone, each value under its own
/// name.
pub proof fn law_set_details(
    a: &mut Tree,
    b: &mut Tree,
    id: NodeId,
    tag: Option<Tag>,
    flags: NodeFlags,
    created: FileTime,
    accessed: FileTime,
    modified: FileTime,
)
    requires
        old(a)@.wf(),
        old(a)@.live(id),
        old(b)@.wf(),
        old(b)@.live(id),
        call_ensures(Tree::set_tag, (a, id, tag), ()),
        call_ensures(Tree::set_details, (b, id, flags, created, accessed, modified), ()),
    ensures
        final(a)@.nodes[id as int].tag == tag,
        final(a)@.nodes[id as int].flags == old(a)@.nodes[id as int].flags,
        final(b)@.nodes[id as int].flags == flags,
        final(b)@.nodes[id as int].created == created,
        final(b)@.nodes[id as int].accessed == accessed,
        final(b)@.nodes[id as int].modified == modified,
        final(b)@.nodes[id as int].tag == old(b)@.nodes[id as int].tag,
        final(b)@.nodes[id as int].agg_allocated == old(b)@.nodes[id as int].agg_allocated,
{
    assert(old(a)@.node_ok(id));
    assert(old(b)@.node_ok(id));
}

/// What is removed is gone with all that is below it, and its totals are taken off
/// those above it.
pub proof fn law_remove_subtree(t: &mut Tree, id: NodeId, x: NodeId, m: Measure)
    requires
        old(t)@.wf(),
        old(t)@.live(id),
        call_ensures(Tree::remove_subtree, (t, id), ()),
    ensures
        final(t)@.live(x) <==> old(t)@.live(x) && !old(t)@.within(x, id),
        final(t)@.live(x) ==> totals::total_at(final(t)@, x, m) == totals::total_at(old(t)@, x, m)
            - (if old(t)@.within(id, x) {
            totals::total_at(old(t)@, id, m)
        } else {
            0
        }),
{
    if final(t)@.live(x) {
        totals::law_removed_totals(old(t)@, final(t)@, id, x, m);
    }
}

/// An entry that can be read is handed on with its own times, sizes and name, below
/// the folder that holds it, and is counted.
pub proof fn law_walk_step(
    w: &mut WalkScan,
    scanner: &mut WalkScanner,
    e: WalkEntry,
    opts: &ScanOptions,
    reports: bool,
    r: WalkStep,
    m: MetaValues,
)
    requires
        old(w).last_progress <= old(w).summary.entries,
        old(w).summary.unaccessible < u64::MAX,
        scan::can_count(
            old(w).summary@,
            walk::mapped(
                old(scanner)@,
                walk::entry_name(e),
                e.file_type,
                e.reading@,
                scan::text_option(e.denied),
            ),
        ),
        call_ensures(WalkScan::step, (w, scanner, WalkItem::Entry(e), opts, reports), r),
        !opts.cancel,
        e.depth > 0,
        e.denied is None,
        e.reading@ == ReadingView::Meta(m),
        m.hardlink_key is None,
    ensures
        r is Emit,
        r matches WalkStep::Emit(u, told, _) ==> {
            &&& told is None
            &&& u.path@ == e.path@
            &&& u.parent_path matches Some(p) && p@ == e.parent_path@
            &&& u.params.name@ == e.file_name@
            &&& u.params.created == m.created
            &&& u.params.accessed == m.accessed
            &&& u.params.modified == m.modified
            &&& u.params.kind == NodeKind::Directory <==> e.file_type == EntryType::Directory
            &&& e.file_type != EntryType::Directory ==> u.params.logical_size == m.logical
                && u.params.allocated_size == m.allocated
        },
        final(w).summary.entries == old(w).summary.entries + 1,
        e.file_type == EntryType::Directory ==> final(w).summary.dirs == old(w).summary.dirs + 1
            && final(w).summary.files == old(w).summary.files,
        e.file_type != EntryType::Directory ==> final(w).summary.files == old(w).summary.files + 1
            && final(w).summary.dirs == old(w).summary.dirs,
{
    walk::law_entries_keep_their_values(old(scanner)@, e.file_name@, e.file_type, m);
    scan::law_counting(
        old(w).summary@,
        walk::mapped(
            old(scanner)@,
            walk::entry_name(e),
            e.file_type,
            e.reading@,
            scan::text_option(e.denied),
        ),
    );
}

/// What the file system tells of an opened file is taken over number by number.
pub proof fn law_file_meta(
    size: (u32, u32),
    allocation: i64,
    links: u32,
    created: (u32, u32),
    accessed: (u32, u32),
    modified: (u32, u32),
    m: FileMeta,
)
    requires
        call_ensures(
            mft::file_meta,
            (size, allocation, links, created, accessed, modified),
            m,
        ),
        created.0 < 0x8000_0000,
        accessed.0 < 0x8000_0000,
        modified.0 < 0x8000_0000,
    ensures
        m.logical == size.0 * 0x1_0000_0000 + size.1,
        allocation > 0 ==> m.allocated == allocation,
        allocation <= 0 ==> m.allocated == m.logical,
        m.links == links,
        m.created == created.0 * 0x1_0000_0000 + created.1,
        m.accessed == accessed.0 * 0x1_0000_0000 + accessed.1,
        m.modified == modified.0 * 0x1_0000_0000 + modified.1,
{
}

/// A snapshot that was saved is read back as it was.
pub proof fn law_saved_and_loaded(
    s: &Snapshot,
    bytes: Vec<u8>,
    data: &[u8],
    r: Result<Snapshot, SnapshotError>,
)
    requires
        s.tree@.wf(),
        snapshot_laws::fits(s@),
        call_ensures(Snapshot::encode, (s,), Ok(bytes)),
        data@ == bytes@,
        call_ensures(Snapshot::decode, (data,), r),
    ensures
        r is Ok,
        r matches Ok(t) ==> {
            &&& t.filter@ == s.filter@
            &&& text::texts(t.zoom_path@) == text::texts(s.zoom_path@)
            &&& t.meta.started == s.meta.started
            &&& t.meta.finished == s.meta.finished
            &&& t.meta.volume_serial == s.meta.volume_serial
            &&& t.meta.tool_version@ == s.meta.tool_version@
            &&& s.tree@.root matches Some(a) ==> (t.tree@.root matches Some(b) && t.tree@.data(b)
                == s.tree@.data(a))
        },
{
    snapshot_laws::law_round_trip(s@);
}

/// An export without options is sorted by allocated size and starts with the mark of
/// its encoding and the names of the columns.
pub proof fn law_export_csv(tree: &Tree, root: NodeId, out: &mut Vec<u8>, r: Result<(), ExportError>)
    requires
        tree@.wf(),
        call_ensures(export::export_csv, (tree, root, out), r),
    ensures
        r is Ok <==> tree@.live(root),
        r is Err ==> final(out)@ == old(out)@,
        r is Ok ==> final(out)@ == old(out)@ + (seq![0xefu8, 0xbbu8, 0xbfu8] + export::csv_line(
            export::csv_header(),
        ) + export::csv_rows(
            tree@,
            crate::visit::visits(tree@, export::by_size(tree@, SizeMode::Allocated), root),
        )),
{
}

/// The words of a command line, letter by letter.
proof fn spell_commands()
    ensures
        "scan"@ == seq!['s', 'c', 'a', 'n'],
        "scan"@.len() == 4,
        "load"@ == seq!['l', 'o', 'a', 'd'],
        "load"@.len() == 4,
        "filter"@ == seq!['f', 'i', 'l', 't', 'e', 'r'],
        "filter"@.len() == 6,
        "export"@ == seq!['e', 'x', 'p', 'o', 'r', 't'],
        "export"@.len() == 6,
        "save"@ == seq!['s', 'a', 'v', 'e'],
        "save"@.len() == 4,
        "autoclose"@ == seq!['a', 'u', 't', 'o', 'c', 'l', 'o', 's', 'e'],
        "autoclose"@.len() == 9,
        "help"@ == seq!['h', 'e', 'l', 'p'],
        "help"@.len() == 4,
        "--headless"@ == seq!['-', '-', 'h', 'e', 'a', 'd', 'l', 'e', 's', 's'],
        "--headless"@.len() == 10,
        "--console"@ == seq!['-', '-', 'c', 'o', 'n', 's', 'o', 'l', 'e'],
        "--console"@.len() == 9,
{
    reveal_strlit("scan");
    reveal_strlit("load");
    reveal_strlit("filter");
    reveal_strlit("export");
    reveal_strlit("save");
    reveal_strlit("autoclose");
    reveal_strlit("help");
    reveal_strlit("--headless");
    reveal_strlit("--console");
    assert("scan"@ =~= seq!['s', 'c', 'a', 'n']);
    assert("load"@ =~= seq!['l', 'o', 'a', 'd']);
    assert("filter"@ =~= seq!['f', 'i', 'l', 't', 'e', 'r']);
    assert("export"@ =~= seq!['e', 'x', 'p', 'o', 'r', 't']);
    assert("save"@ =~= seq!['s', 'a', 'v', 'e']);
    assert("autoclose"@ =~= seq!['a', 'u', 't', 'o', 'c', 'l', 'o', 's', 'e']);
    assert("help"@ =~= seq!['h', 'e', 'l', 'p']);
    assert("--headless"@ =~= seq!['-', '-', 'h', 'e', 'a', 'd', 'l', 'e', 's', 's']);
    assert("--console"@ =~= seq!['-', '-', 'c', 'o', 'n', 's', 'o', 'l', 'e']);
}

/// Each command takes the words that follow it: `scan`, `load`, `filter` and `save`
/// one, `export` two, `autoclose` none; the next command starts behind them.
pub proof fn law_commands(a: Seq<char>, b: Seq<char>, rest: Seq<Seq<char>>, cs: Seq<CmdView>)
    requires
        cli_meta::commands(rest) == Ok::<Seq<CmdView>, Seq<char>>(cs),
    ensures
        cli_meta::commands(seq!["scan"@, a] + rest) == Ok::<Seq<CmdView>, Seq<char>>(
            seq![CmdView::Scan(a)] + cs,
        ),
        cli_meta::commands(seq!["load"@, a] + rest) == Ok::<Seq<CmdView>, Seq<char>>(
            seq![CmdView::Load(a)] + cs,
        ),
        cli_meta::commands(seq!["filter"@, a] + rest) == Ok::<Seq<CmdView>, Seq<char>>(
            seq![CmdView::Filter(a)] + cs,
        ),
        cli_meta::commands(seq!["export"@, a, b] + rest) == Ok::<Seq<CmdView>, Seq<char>>(
            seq![CmdView::Export { config: a, dest: b }] + cs,
        ),
        cli_meta::commands(seq!["save"@, a] + rest) == Ok::<Seq<CmdView>, Seq<char>>(
            seq![CmdView::Save(a)] + cs,
        ),
        cli_meta::commands(seq!["autoclose"@] + rest) == Ok::<Seq<CmdView>, Seq<char>>(
            seq![CmdView::Autoclose] + cs,
        ),
        cli_meta::commands(Seq::empty()) == Ok::<Seq<CmdView>, Seq<char>>(Seq::empty()),
{
    spell_commands();
    lemma_one_command("scan"@, a, rest);
    lemma_one_command("load"@, a, rest);
    lemma_one_command("filter"@, a, rest);
    lemma_one_command("save"@, a, rest);
    let e = seq!["export"@, a, b] + rest;
    assert(e[0] == "export"@ && e[1] == a && e[2] == b);
    assert(e.skip(3) =~= rest);
    let c = seq!["autoclose"@] + rest;
    assert(c[0] == "autoclose"@);
    assert(c.skip(1) =~= rest);
}

proof fn lemma_one_command(word: Seq<char>, a: Seq<char>, rest: Seq<Seq<char>>)
    ensures
        (seq![word, a] + rest)[0] == word,
        (seq![word, a] + rest)[1] == a,
        (seq![word, a] + rest).len() == rest.len() + 2,
        (seq![word, a] + rest).skip(2) == rest,
{
    assert((seq![word, a] + rest).skip(2) =~= rest);
}

/// A command without the words that it needs is a mistake.
pub proof fn law_incomplete_commands(a: Seq<char>)
    ensures
        cli_meta::commands(seq!["scan"@]) is Err,
        cli_meta::commands(seq!["load"@]) is Err,
        cli_meta::commands(seq!["filter"@]) is Err,
        cli_meta::commands(seq!["save"@]) is Err,
        cli_meta::commands(seq!["export"@]) is Err,
        cli_meta::commands(seq!["export"@, a]) is Err,
{
    spell_commands();
    assert(seq!["export"@, a][0] == "export"@);
}

/// The flags before the first command are passed over.
pub proof fn law_flags_before_commands(args: Seq<Seq<char>>)
    ensures
        cli_meta::without_flags(seq!["--headless"@] + args) == cli_meta::without_flags(args),
        cli_meta::without_flags(seq!["--console"@] + args) == cli_meta::without_flags(args),
        args.len() > 0 && args[0] == "scan"@ ==> cli_meta::without_flags(args) == args,
{
    spell_commands();
    assert((seq!["--headless"@] + args).drop_first() =~= args);
    assert((seq!["--console"@] + args).drop_first() =~= args);
}

/// Each setting is read from the key of its name.
pub proof fn law_settings_read(table: toml::Table, c: Config)
    requires
        call_ensures(Config::from_table, (table,), c),
    ensures
        ({
            let m = toml_values::entries(table);
            &&& m.dom().contains("flash_enabled"@) && toml_values::content(m["flash_enabled"@])
                == Content::Flag(true) ==> c.flash_enabled == Some(true)
            &&& m.dom().contains("watch_enabled"@) && toml_values::content(m["watch_enabled"@])
                == Content::Flag(true) ==> c.watch_enabled == Some(true)
            &&& !m.dom().contains("flash_enabled"@) ==> c.flash_enabled is None
            &&& !m.dom().contains("watch_enabled"@) ==> c.watch_enabled is None
            &&& m.dom().contains("display_depth"@) && toml_values::content(m["display_depth"@])
                == Content::Number(3) ==> c.display_depth == Some(3u32)
            &&& m.dom().contains("zoom_anim_ms"@) && toml_values::content(m["zoom_anim_ms"@])
                == Content::Number(250) ==> c.zoom_anim_ms == Some(250u64)
            &&& !m.dom().contains("display_depth"@) ==> c.display_depth is None
            &&& !m.dom().contains("zoom_anim_ms"@) ==> c.zoom_anim_ms is None
            &&& !m.dom().contains("theme"@) ==> c.theme == ThemeSetting::System
        }),
{
}

/// The themes by their names, whatever the case of the letters; settings say them in
/// small letters, and the screen with a capital.
pub proof fn law_theme_names(t: ThemeSetting, s: &'static str, word: &str, r: Option<ThemeSetting>)
    requires
        call_ensures(ThemeSetting::label, (t,), s),
        word@ == t.key(),
        call_ensures(ThemeSetting::parse, (word,), r),
    ensures
        t == ThemeSetting::System ==> s@ == "System"@ && word@ == "system"@,
        t == ThemeSetting::Light ==> s@ == "Light"@ && word@ == "light"@,
        t == ThemeSetting::Dark ==> s@ == "Dark"@ && word@ == "dark"@,
        r == Some(t),
{
    reveal_strlit("system");
    reveal_strlit("light");
    reveal_strlit("dark");
    assert("system"@.len() == 6 && "light"@.len() == 5 && "dark"@.len() == 4);
    assert(text::same_ascii("light"@, "light"@));
}

/// Settings beside the program come before those of the user, whose place the
/// environment names or the home folder holds.
pub proof fn law_settings_places(exe: Seq<char>, base: Seq<char>, home: Seq<char>)
    ensures
        ({
            let beside = text::joined(exe, "RustySpaceSniffer.toml"@);
            let own = |d: Seq<char>|
                text::joined(text::joined(d, "rustyspacesniffer"@), "config.toml"@);
            &&& config::candidates(Some(exe), Some(base), Some(home)) == seq![beside, own(base)]
            &&& config::candidates(Some(exe), None, Some(home)) == seq![
                beside,
                own(text::joined(home, ".config"@)),
            ]
            &&& config::candidates(Some(exe), None, None) == seq![beside]
            &&& config::candidates(None, Some(base), None) == seq![own(base)]
        }),
{
}

} // verus!
