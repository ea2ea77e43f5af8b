//! What calls of the library's functions give back, said of the values that go in
//! and come out.
use vstd::prelude::*;

use crate::cli;
use crate::diskspace;
use crate::diskspace::DiskSpace;
use crate::export::{ExportOptions, SizeMode};
use crate::filter;
use crate::filter::{Filter, FilterVerdict};
use crate::filter_ast;
use crate::filter_ast::FileClass;
use crate::filter_texts;
use crate::glob;
use crate::node::{NodeFlags, NodeKind, NodeParams, Tag};
use crate::ntfs;
use crate::ntfs::{EngineChoice, EnginePlan, PathClass};
use crate::paths;
use crate::sizes;
use crate::template;
use crate::template::ExportTemplate;
use crate::text;
use crate::time;
use crate::time::Date;
use crate::tree::Tree;
use crate::walk;
use crate::walk::{EntryType, MetaValues, PathStat, Stamp, UnixStat, WindowsStat};
use crate::{FileTime, NodeId};

verus! {

/// A filter of one size condition matches a node exactly if its own allocated size,
/// or with `filesize` or `logicalsize` its own logical size, is above or below the
/// number.
pub proof fn law_size_filter(
    input: &str,
    classes: &[FileClass],
    f: Filter,
    tree: &Tree,
    id: NodeId,
    now: FileTime,
    r: bool,
    word: Seq<char>,
    op: char,
    n: u64,
    unit: Seq<char>,
    factor: int,
)
    requires
        call_ensures(Filter::parse, (input, classes), f),
        call_ensures(Filter::matches, (&f, tree, id, now), r),
        tree@.links(),
        tree@.live(id),
        input@ == word + seq![op] + text::dec(n as nat) + unit,
        word == Seq::<char>::empty() || word == "disksize"@ || word == "clustersize"@ || word
            == "size"@ || word == "disk"@ || word == "dsk"@ || word == "dsksz"@ || word
            == "filesize"@ || word == "logicalsize"@,
        op == '<' || op == '>',
        ((unit == Seq::<char>::empty() || unit == "b"@) && factor == 1) || (unit == "kb"@ && factor
            == 1024) || (unit == "mb"@ && factor == 1024 * 1024) || (unit == "gb"@ && factor == 1024
            * 1024 * 1024) || (unit == "tb"@ && factor == 1024 * 1024 * 1024 * 1024),
        n * factor <= u64::MAX,
    ensures
        ({
            let d = tree@.nodes[id as int];
            let size = if word == "filesize"@ || word == "logicalsize"@ {
                d.logical_size
            } else {
                d.allocated_size
            };
            &&& f@.warnings.len() == 0
            &&& op == '>' ==> (r <==> size > n * factor)
            &&& op == '<' ==> (r <==> size < n * factor)
        }),
{
    filter_texts::law_size_conditions(
        word,
        op,
        n,
        unit,
        factor,
        filter_ast::class_views(classes@),
        tree@,
        id,
        now,
    );
}

/// A filter of one age condition matches a node exactly if it is older or younger
/// than the number of units, by its own time of modification or by the time that
/// the keyword names.
pub proof fn law_age_filter(
    input: &str,
    classes: &[FileClass],
    f: Filter,
    tree: &Tree,
    id: NodeId,
    now: FileTime,
    r: bool,
    word: Seq<char>,
    op: char,
    n: u64,
    unit: Seq<char>,
    factor: int,
)
    requires
        call_ensures(Filter::parse, (input, classes), f),
        call_ensures(Filter::matches, (&f, tree, id, now), r),
        tree@.links(),
        tree@.live(id),
        input@ == word + seq![op] + text::dec(n as nat) + unit,
        word == Seq::<char>::empty() || word == "creation"@ || word == "created"@ || word
            == "modify"@ || word == "modified"@ || word == "access"@ || word == "accessed"@,
        op == '<' || op == '>',
        (unit == "seconds"@ && factor == 1) || (unit == "minutes"@ && factor == 60) || (unit
            == "hours"@ && factor == 60 * 60) || (unit == "days"@ && factor == 24 * 60 * 60) || (
        unit == "weeks"@ && factor == 7 * 24 * 60 * 60) || (unit == "months"@ && factor == 30 * 24
            * 60 * 60) || (unit == "years"@ && factor == 365 * 24 * 60 * 60),
        n * factor <= u64::MAX,
        now - tree@.nodes[id as int].created <= i64::MAX,
        now - tree@.nodes[id as int].modified <= i64::MAX,
        now - tree@.nodes[id as int].accessed <= i64::MAX,
    ensures
        ({
            let d = tree@.nodes[id as int];
            let since = if word == "creation"@ || word == "created"@ {
                d.created
            } else if word == "access"@ || word == "accessed"@ {
                d.accessed
            } else {
                d.modified
            };
            let age = if now <= since {
                0
            } else {
                (now - since) / 10_000_000
            };
            &&& f@.warnings.len() == 0
            &&& op == '>' ==> (r <==> age > n * factor)
            &&& op == '<' ==> (r <==> age < n * factor)
        }),
{
    filter_texts::law_age_conditions(
        word,
        op,
        n,
        unit,
        factor,
        filter_ast::class_views(classes@),
        tree@,
        id,
        now,
    );
}

/// A filter of one attribute matches the nodes that have it.
pub proof fn law_attribute_filter(
    input: &str,
    classes: &[FileClass],
    f: Filter,
    tree: &Tree,
    id: NodeId,
    now: FileTime,
    r: bool,
    word: Seq<char>,
    bit: u32,
    minus: bool,
    negated: bool,
)
    requires
        call_ensures(Filter::parse, (input, classes), f),
        call_ensures(Filter::matches, (&f, tree, id, now), r),
        tree@.links(),
        tree@.live(id),
        input@ == filter_texts::not_text(negated) + ":attr:"@ + filter_texts::minus_text(minus)
            + word,
        (word == "archive"@ && bit == NodeFlags::ARCHIVE)
            || (word == "a"@ && bit == NodeFlags::ARCHIVE)
            || (word == "system"@ && bit == NodeFlags::SYSTEM)
            || (word == "readonly"@ && bit == NodeFlags::READONLY)
            || (word == "ro"@ && bit == NodeFlags::READONLY)
            || (word == "hidden"@ && bit == NodeFlags::HIDDEN)
            || (word == "compressed"@ && bit == NodeFlags::COMPRESSED)
            || (word == "encrypted"@ && bit == NodeFlags::ENCRYPTED)
            || (word == "offline"@ && bit == NodeFlags::OFFLINE)
            || (word == "temporary"@ && bit == NodeFlags::TEMPORARY)
            || (word == "notindexed"@ && bit == NodeFlags::NOT_INDEXED)
            || (word == "sparse"@ && bit == NodeFlags::SPARSE)
            || (word == "sp"@ && bit == NodeFlags::SPARSE)
            || (word == "ads"@ && bit == NodeFlags::ADS),
    ensures
        f@.conditions.len() == 1,
        f@.warnings.len() == 0,
        ({
            let has = tree@.nodes[id as int].flags.0 & bit == bit;
            r <==> ((has != minus) != negated)
        }),
{
    filter_texts::law_attribute_conditions(
        word,
        bit,
        minus,
        negated,
        filter_ast::class_views(classes@),
        tree@,
        id,
        now,
    );
}

/// A filter of one tag matches the nodes that bear it or lie below one that does.
pub proof fn law_tag_filter(
    input: &str,
    classes: &[FileClass],
    f: Filter,
    tree: &Tree,
    id: NodeId,
    now: FileTime,
    r: bool,
    word: Seq<char>,
    tag: Tag,
    negated: bool,
)
    requires
        call_ensures(Filter::parse, (input, classes), f),
        call_ensures(Filter::matches, (&f, tree, id, now), r),
        tree@.links(),
        tree@.live(id),
        input@ == filter_texts::not_text(negated) + seq![':'] + word,
        (word == "red"@ && tag == Tag::Red)
            || (word == "r"@ && tag == Tag::Red)
            || (word == "1"@ && tag == Tag::Red)
            || (word == "yellow"@ && tag == Tag::Yellow)
            || (word == "y"@ && tag == Tag::Yellow)
            || (word == "2"@ && tag == Tag::Yellow)
            || (word == "green"@ && tag == Tag::Green)
            || (word == "g"@ && tag == Tag::Green)
            || (word == "3"@ && tag == Tag::Green)
            || (word == "blue"@ && tag == Tag::Blue)
            || (word == "b"@ && tag == Tag::Blue)
            || (word == "4"@ && tag == Tag::Blue),
    ensures
        f@.warnings.len() == 0,
        r <==> (filter_texts::bears(tree@, id, tag) != negated),
{
    filter_texts::law_tag_conditions(
        word,
        tag,
        negated,
        filter_ast::class_views(classes@),
        tree@,
        id,
        now,
    );
}

/// A filter of one mask matches the nodes whose names match it.
pub proof fn law_mask_filter(
    input: &str,
    classes: &[FileClass],
    f: Filter,
    tree: &Tree,
    id: NodeId,
    now: FileTime,
    r: bool,
    pattern: Seq<char>,
    negated: bool,
)
    requires
        call_ensures(Filter::parse, (input, classes), f),
        call_ensures(Filter::matches, (&f, tree, id, now), r),
        tree@.links(),
        tree@.live(id),
        input@ == filter_texts::not_text(negated) + pattern,
        pattern.len() > 0,
        !pattern.contains(';'),
        !pattern.contains('<'),
        !pattern.contains('>'),
        pattern[0] != '|',
        pattern[0] != '\\',
        pattern[0] != ':',
        !text::is_space(pattern[0]),
        !text::is_space(pattern.last()),
    ensures
        f@.warnings.len() == 0,
        r <==> (glob::glob(pattern, tree@.nodes[id as int].name@) != negated),
{
    filter_texts::law_mask_conditions(
        pattern,
        negated,
        filter_ast::class_views(classes@),
        tree@,
        id,
        now,
    );
}

/// What is said of a node agrees with whether it matches: only what matches is
/// visible, and only what leads to a match is dimmed.
pub proof fn law_evaluation(
    f: &Filter,
    tree: &Tree,
    id: NodeId,
    now: FileTime,
    r: bool,
    v: FilterVerdict,
)
    requires
        call_ensures(Filter::matches, (f, tree, id, now), r),
        call_ensures(filter::evaluate, (tree, id, f, now), v),
        tree@.links(),
        tree@.live(id),
    ensures
        v == FilterVerdict::Visible <==> r,
        v == FilterVerdict::Dimmed <==> !r && exists|x: NodeId| #[trigger]
            tree@.within(x, id) && x != id && filter::passes(f@.conditions, tree@, x, now),
        f@.conditions.len() == 0 ==> r,
{
    filter_texts::law_verdicts(f@.conditions, tree@, id, now);
}

/// The unit that a report shows fits the size.
pub proof fn law_human_size(bytes: u64, s: String)
    requires
        call_ensures(sizes::human_size, (bytes,), s),
        bytes < 0x20_0000_0000_0000,
    ensures
        bytes < 1024 ==> s@ == text::dec(bytes as nat) + " B"@,
        1024 <= bytes < 0x10_0000 ==> sizes::ends_with(s@, " KB"@),
        0x10_0000 <= bytes < 0x4000_0000 ==> sizes::ends_with(s@, " MB"@),
        0x4000_0000 <= bytes < 0x100_0000_0000 ==> sizes::ends_with(s@, " GB"@),
        0x100_0000_0000 <= bytes < 0x4_0000_0000_0000 ==> sizes::ends_with(s@, " TB"@),
        0x4_0000_0000_0000 <= bytes ==> sizes::ends_with(s@, " PB"@),
{
    sizes::law_report_units(bytes as nat);
}

/// The unit that the screen shows fits the size.
pub proof fn law_format_bytes(bytes: u64, s: String)
    requires
        call_ensures(sizes::format_bytes, (bytes,), s),
        bytes < 0x20_0000_0000_0000,
    ensures
        bytes < 1024 ==> s@ == text::dec(bytes as nat) + " B"@,
        1024 <= bytes < 0x10_0000 ==> sizes::ends_with(s@, " KiB"@),
        0x10_0000 <= bytes < 0x4000_0000 ==> sizes::ends_with(s@, " MiB"@),
        0x4000_0000 <= bytes < 0x100_0000_0000 ==> sizes::ends_with(s@, " GiB"@),
        0x100_0000_0000 <= bytes ==> sizes::ends_with(s@, " TiB"@),
{
    sizes::law_screen_units(bytes as nat);
}

/// An age is shown in the largest unit that fits; what lies ahead is no second old.
pub proof fn law_age_string(now: FileTime, modified: FileTime, s: String, days: int)
    requires
        call_ensures(sizes::age_string, (now, modified), s),
        116_444_736_000_000_000 <= modified,
        now == modified + days * 86_400 * 10_000_000,
        days >= 0,
    ensures
        days == 0 ==> s@ == text::dec(0) + "s"@,
        1 <= days < 30 ==> s@ == text::dec(days as nat) + "d"@,
        30 <= days < 365 ==> s@ == text::dec((days / 30) as nat) + "mo"@,
        365 <= days ==> s@ == text::dec((days / 365) as nat) + "y"@,
{
    sizes::law_age_units(now, modified);
    let m = modified - 116_444_736_000_000_000;
    let n = now - 116_444_736_000_000_000;
    assert(n == m + days * 86_400 * 10_000_000);
    assert(n / 10_000_000 == m / 10_000_000 + days * 86_400);
    let secs = days * 86_400;
    assert(secs / 86_400 == days);
    assert(secs / 2_592_000 == days / 30);
    assert(secs / 31_536_000 == days / 365);
}

/// What a Unix file system tells about an entry is taken over field by field.
pub proof fn law_meta_values(st: &UnixStat, is_file: bool, m: MetaValues)
    requires
        call_ensures(walk::meta_values, (st, is_file), m),
        walk::times_fit(*st),
        st.blocks * 512 <= u64::MAX,
    ensures
        m.logical == st.len,
        m.allocated == 512 * st.blocks,
        m.accessed == st.atime * 10_000_000 + 116_444_736_000_000_000,
        m.modified == st.mtime * 10_000_000 + 116_444_736_000_000_000,
        st.created matches Stamp::After(n) ==> m.created == n * 10_000_000
            + 116_444_736_000_000_000,
        m.hardlink_key is Some <==> is_file && st.nlink > 1,
        m.hardlink_key matches Some(k) ==> k == (st.dev, st.ino),
{
    walk::law_unix_entries(*st, is_file);
}

/// What is told about a single path is taken over field by field.
pub proof fn law_path_meta_values(st: &PathStat, m: MetaValues)
    requires
        call_ensures(walk::path_meta_values, (st,), m),
        walk::stamp_seconds(st.created) <= walk::LAST_SECOND,
        walk::stamp_seconds(st.accessed) <= walk::LAST_SECOND,
        walk::stamp_seconds(st.modified) <= walk::LAST_SECOND,
        st.blocks * 512 <= u64::MAX,
    ensures
        m.logical == st.len,
        m.allocated == 512 * st.blocks,
        m.hardlink_key is None,
        st.created matches Stamp::After(n) ==> m.created == n * 10_000_000
            + 116_444_736_000_000_000,
        st.accessed matches Stamp::After(n) ==> m.accessed == n * 10_000_000
            + 116_444_736_000_000_000,
        st.modified matches Stamp::After(n) ==> m.modified == n * 10_000_000
            + 116_444_736_000_000_000,
{
    walk::law_single_paths(*st);
}

/// What a Windows listing tells about an entry, with its compressed size where that
/// is needed.
pub proof fn law_windows_meta_values(
    st: &WindowsStat,
    is_file: bool,
    compressed: Option<u64>,
    m: MetaValues,
)
    requires
        call_ensures(walk::windows_meta_values, (st, is_file, compressed), m),
        walk::stamp_seconds(st.modified) <= walk::LAST_SECOND,
    ensures
        m.logical == st.len,
        st.allocated > 0 || !is_file || st.len == 0 ==> m.allocated == st.allocated,
        st.allocated == 0 && is_file && st.len > 0 && compressed is Some ==> m.allocated
            == compressed->0,
        st.allocated == 0 && is_file && st.len > 0 && compressed is None ==> m.allocated == st.len,
        m.created == m.modified,
        m.accessed == m.modified,
{
    walk::law_windows_entries(*st, is_file, compressed);
}

/// The node of a path that is there has its own times, sizes and name.
pub proof fn law_stat_entry(path: &str, t: EntryType, m: MetaValues, r: Option<NodeParams>)
    requires
        call_ensures(walk::stat_entry, (path, Some((t, m))), r),
    ensures
        r is Some,
        r matches Some(p) ==> {
            &&& p.created == m.created
            &&& p.accessed == m.accessed
            &&& p.modified == m.modified
            &&& p.kind == NodeKind::Directory <==> t == EntryType::Directory
            &&& t != EntryType::Directory ==> p.logical_size == m.logical && p.allocated_size
                == m.allocated
            &&& paths::file_name(path@) matches Some(n) ==> p.name@ == n
        },
{
    walk::law_single_paths_keep_their_values(path@, t, m);
}

/// A count of seconds since 1970 becomes ticks since 1601 and back.
pub proof fn law_seconds(secs: i64, ft: FileTime, back: i64)
    requires
        0 <= secs <= walk::LAST_SECOND,
        call_ensures(time::filetime_from_unix, (secs,), ft),
        call_ensures(time::filetime_to_unix, (ft,), back),
    ensures
        ft == secs * 10_000_000 + 116_444_736_000_000_000,
        back == secs,
{
}

/// A moment is written with its day and its clock.
pub proof fn law_written_moment(d: Date, h: int, m: int, s: int, ft: FileTime, r: String)
    requires
        call_ensures(time::format_rfc3339, (ft,), r),
        d.valid(),
        0 <= h < 24,
        0 <= m < 60,
        0 <= s < 60,
        ft == (d.number() * 86_400 + h * 3600 + m * 60 + s) * 10_000_000 + 116_444_736_000_000_000,
    ensures
        r@ == time::year_text(d.year) + seq!['-'] + text::dec0(d.month as nat, 2) + seq!['-']
            + text::dec0(d.day as nat, 2) + seq!['T'] + (text::dec0(h as nat, 2) + seq![':']
            + text::dec0(m as nat, 2) + seq![':'] + text::dec0(s as nat, 2)) + seq!['Z'],
{
    time::law_moment_texts(d, h, m, s);
}

/// A moment is shown with its day and its clock in universal time.
pub proof fn law_shown_moment(d: Date, h: int, m: int, s: int, ft: FileTime, r: String)
    requires
        call_ensures(time::format_filetime, (ft,), r),
        d.valid(),
        d.year >= 1970,
        0 <= h < 24,
        0 <= m < 60,
        0 <= s < 60,
        ft == (d.number() * 86_400 + h * 3600 + m * 60 + s) * 10_000_000 + 116_444_736_000_000_000,
    ensures
        r@ == time::year_text(d.year) + seq!['-'] + text::dec0(d.month as nat, 2) + seq!['-']
            + text::dec0(d.day as nat, 2) + seq![' '] + (text::dec0(h as nat, 2) + seq![':']
            + text::dec0(m as nat, 2) + seq![':'] + text::dec0(s as nat, 2)) + seq![
            ' ',
            'U',
            'T',
            'C',
        ],
{
    time::law_moment_texts(d, h, m, s);
}

/// The attributes of a file system become the flags of their names.
pub proof fn law_file_attributes(attrs: u32, flags: NodeFlags, folder: bool, link: bool)
    requires
        call_ensures(ntfs::node_flags_from_file_attributes, (attrs,), flags),
        call_ensures(ntfs::is_directory, (attrs,), folder),
        call_ensures(ntfs::is_reparse_point, (attrs,), link),
    ensures
        (flags.0 & NodeFlags::READONLY != 0) == (attrs & 0x1 != 0),
        (flags.0 & NodeFlags::HIDDEN != 0) == (attrs & 0x2 != 0),
        (flags.0 & NodeFlags::SYSTEM != 0) == (attrs & 0x4 != 0),
        (flags.0 & NodeFlags::ARCHIVE != 0) == (attrs & 0x20 != 0),
        (flags.0 & NodeFlags::TEMPORARY != 0) == (attrs & 0x100 != 0),
        (flags.0 & NodeFlags::SPARSE != 0) == (attrs & 0x200 != 0),
        (flags.0 & NodeFlags::REPARSE_POINT != 0) == (attrs & 0x400 != 0),
        (flags.0 & NodeFlags::COMPRESSED != 0) == (attrs & 0x800 != 0),
        (flags.0 & NodeFlags::OFFLINE != 0) == (attrs & 0x1000 != 0),
        (flags.0 & NodeFlags::NOT_INDEXED != 0) == (attrs & 0x2000 != 0),
        (flags.0 & NodeFlags::ENCRYPTED != 0) == (attrs & 0x4000 != 0),
        folder == (attrs & 0x10 != 0),
        link == (attrs & 0x400 != 0),
{
    ntfs::law_attribute_bits(attrs);
}

/// A path with a drive letter lies on that drive, and the file table is read only
/// there, on NTFS, where the volume can be opened.
pub proof fn law_engine_of_path(
    path: &str,
    c: char,
    rest: Seq<char>,
    class: PathClass,
    fs_name: Option<&str>,
    openable: bool,
    plan: EnginePlan,
)
    requires
        path@ == seq![c, ':'] + rest,
        'A' <= c <= 'Z',
        call_ensures(ntfs::classify_path, (path,), class),
        call_ensures(ntfs::decide_engine, (class, fs_name, openable), plan),
    ensures
        class == PathClass::Drive(c as u8),
        plan.choice == EngineChoice::Mft <==> fs_name is Some && text::same_ascii(
            fs_name->0@,
            "NTFS"@,
        ) && openable,
{
    ntfs::law_drive_letters(c, rest);
    ntfs::law_engine(class, fs_name, openable);
}

/// The file that output goes to is the one named by the option, or else the one
/// named by its place.
pub proof fn law_output_file(out: Option<String>, place: Option<String>, r: Option<String>)
    requires
        call_ensures(cli::output_file, (out, place), r),
    ensures
        out is Some ==> r == out,
        out is None ==> r == place,
{
}

/// An export is sorted by logical size only where that is asked for.
pub proof fn law_export_options(logical: bool, o: ExportOptions)
    requires
        call_ensures(cli::export_options, (logical,), o),
    ensures
        logical ==> o.size_mode == SizeMode::Logical,
        !logical ==> o.size_mode == SizeMode::Allocated,
{
}

/// The space of a drive is known if both its numbers are and it has any.
pub proof fn law_disk_space(total: Option<u64>, free: Option<u64>, r: Option<DiskSpace>)
    requires
        call_ensures(diskspace::disk_space, (total, free), r),
    ensures
        r is Some <==> total is Some && free is Some && total->0 > 0,
        r matches Some(d) ==> Some(d.total) == total && Some(d.free) == free,
{
}

/// The templates that come with the library are found by their names, whatever the
/// case of the letters.
pub proof fn law_builtin_templates(name: &str, r: Option<ExportTemplate>)
    requires
        call_ensures(template::find_builtin_template, (name,), r),
    ensures
        text::same_ascii("Grouped by folder"@, name@) ==> r is Some && (r->0)@.name
            == "Grouped by folder"@,
        text::same_ascii("Plain list"@, name@) && !text::same_ascii("Grouped by folder"@, name@)
            ==> r is Some && (r->0)@.name == "Plain list"@,
        !text::same_ascii("Plain list"@, name@) && !text::same_ascii("Grouped by folder"@, name@)
            ==> r is None,
{
}

} // verus!
