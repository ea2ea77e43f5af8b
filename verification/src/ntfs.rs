//! Decisions about NTFS volumes and Windows paths, from plain values.
use vstd::prelude::*;
use vstd::string::*;

use crate::node::NodeFlags;
use crate::text;

verus! {

pub const FILE_ATTRIBUTE_READONLY: u32 = 0x1;

pub const FILE_ATTRIBUTE_HIDDEN: u32 = 0x2;

pub const FILE_ATTRIBUTE_SYSTEM: u32 = 0x4;

pub const FILE_ATTRIBUTE_DIRECTORY: u32 = 0x10;

pub const FILE_ATTRIBUTE_ARCHIVE: u32 = 0x20;

pub const FILE_ATTRIBUTE_TEMPORARY: u32 = 0x100;

pub const FILE_ATTRIBUTE_SPARSE_FILE: u32 = 0x200;

pub const FILE_ATTRIBUTE_REPARSE_POINT: u32 = 0x400;

pub const FILE_ATTRIBUTE_COMPRESSED: u32 = 0x800;

pub const FILE_ATTRIBUTE_OFFLINE: u32 = 0x1000;

pub const FILE_ATTRIBUTE_NOT_CONTENT_INDEXED: u32 = 0x2000;

pub const FILE_ATTRIBUTE_ENCRYPTED: u32 = 0x4000;

/// Whether attributes are those of a directory.
pub open spec fn directory(attrs: u32) -> bool {
    attrs & FILE_ATTRIBUTE_DIRECTORY != 0
}

/// Whether attributes are those of a reparse point: a link, a junction, a mount
/// point or a placeholder.
pub open spec fn reparse_point(attrs: u32) -> bool {
    attrs & FILE_ATTRIBUTE_REPARSE_POINT != 0
}

/// Whether attributes are those of a directory.
pub fn is_directory(file_attributes: u32) -> (r: bool)
    ensures
        r == directory(file_attributes),
{
    file_attributes & FILE_ATTRIBUTE_DIRECTORY != 0
}

/// Whether attributes are those of a reparse point.
pub fn is_reparse_point(file_attributes: u32) -> (r: bool)
    ensures
        r == reparse_point(file_attributes),
{
    file_attributes & FILE_ATTRIBUTE_REPARSE_POINT != 0
}

/// A flag if an attribute is set.
pub open spec fn pick(attrs: u32, bit: u32, flag: u32) -> u32 {
    if attrs & bit != 0 {
        flag
    } else {
        0
    }
}

/// The flags that attributes stand for.
pub open spec fn flags_of(attrs: u32) -> u32 {
    0u32 | pick(attrs, FILE_ATTRIBUTE_ARCHIVE, NodeFlags::ARCHIVE) | pick(
        attrs,
        FILE_ATTRIBUTE_SYSTEM,
        NodeFlags::SYSTEM,
    ) | pick(attrs, FILE_ATTRIBUTE_READONLY, NodeFlags::READONLY) | pick(
        attrs,
        FILE_ATTRIBUTE_HIDDEN,
        NodeFlags::HIDDEN,
    ) | pick(attrs, FILE_ATTRIBUTE_COMPRESSED, NodeFlags::COMPRESSED) | pick(
        attrs,
        FILE_ATTRIBUTE_ENCRYPTED,
        NodeFlags::ENCRYPTED,
    ) | pick(attrs, FILE_ATTRIBUTE_OFFLINE, NodeFlags::OFFLINE) | pick(
        attrs,
        FILE_ATTRIBUTE_TEMPORARY,
        NodeFlags::TEMPORARY,
    ) | pick(attrs, FILE_ATTRIBUTE_NOT_CONTENT_INDEXED, NodeFlags::NOT_INDEXED) | pick(
        attrs,
        FILE_ATTRIBUTE_SPARSE_FILE,
        NodeFlags::SPARSE,
    ) | pick(attrs, FILE_ATTRIBUTE_REPARSE_POINT, NodeFlags::REPARSE_POINT)
}

fn set_if(flags: &mut NodeFlags, attrs: u32, bit: u32, flag: u32)
    ensures
        final(flags).0 == old(flags).0 | pick(attrs, bit, flag),
{
    if attrs & bit != 0 {
        flags.insert(NodeFlags(flag));
    } else {
        let f: u32 = flags.0;
        proof {
            assert(f | 0 == f) by (bit_vector);
        }
    }
}

/// The flags that attributes stand for.
pub fn node_flags_from_file_attributes(attrs: u32) -> (flags: NodeFlags)
    ensures
        flags.0 == flags_of(attrs),
{
    let mut flags = NodeFlags(0);
    set_if(&mut flags, attrs, FILE_ATTRIBUTE_ARCHIVE, NodeFlags::ARCHIVE);
    set_if(&mut flags, attrs, FILE_ATTRIBUTE_SYSTEM, NodeFlags::SYSTEM);
    set_if(&mut flags, attrs, FILE_ATTRIBUTE_READONLY, NodeFlags::READONLY);
    set_if(&mut flags, attrs, FILE_ATTRIBUTE_HIDDEN, NodeFlags::HIDDEN);
    set_if(&mut flags, attrs, FILE_ATTRIBUTE_COMPRESSED, NodeFlags::COMPRESSED);
    set_if(&mut flags, attrs, FILE_ATTRIBUTE_ENCRYPTED, NodeFlags::ENCRYPTED);
    set_if(&mut flags, attrs, FILE_ATTRIBUTE_OFFLINE, NodeFlags::OFFLINE);
    set_if(&mut flags, attrs, FILE_ATTRIBUTE_TEMPORARY, NodeFlags::TEMPORARY);
    set_if(&mut flags, attrs, FILE_ATTRIBUTE_NOT_CONTENT_INDEXED, NodeFlags::NOT_INDEXED);
    set_if(&mut flags, attrs, FILE_ATTRIBUTE_SPARSE_FILE, NodeFlags::SPARSE);
    set_if(&mut flags, attrs, FILE_ATTRIBUTE_REPARSE_POINT, NodeFlags::REPARSE_POINT);
    flags
}

/// Each flag is set exactly if its attribute is.
pub proof fn law_flags(attrs: u32)
    ensures
        NodeFlags(flags_of(attrs)).has(NodeFlags(NodeFlags::ARCHIVE)) == (attrs
            & FILE_ATTRIBUTE_ARCHIVE != 0),
        NodeFlags(flags_of(attrs)).has(NodeFlags(NodeFlags::SYSTEM)) == (attrs
            & FILE_ATTRIBUTE_SYSTEM != 0),
        NodeFlags(flags_of(attrs)).has(NodeFlags(NodeFlags::READONLY)) == (attrs
            & FILE_ATTRIBUTE_READONLY != 0),
        NodeFlags(flags_of(attrs)).has(NodeFlags(NodeFlags::HIDDEN)) == (attrs
            & FILE_ATTRIBUTE_HIDDEN != 0),
        NodeFlags(flags_of(attrs)).has(NodeFlags(NodeFlags::COMPRESSED)) == (attrs
            & FILE_ATTRIBUTE_COMPRESSED != 0),
        NodeFlags(flags_of(attrs)).has(NodeFlags(NodeFlags::ENCRYPTED)) == (attrs
            & FILE_ATTRIBUTE_ENCRYPTED != 0),
        NodeFlags(flags_of(attrs)).has(NodeFlags(NodeFlags::OFFLINE)) == (attrs
            & FILE_ATTRIBUTE_OFFLINE != 0),
        NodeFlags(flags_of(attrs)).has(NodeFlags(NodeFlags::TEMPORARY)) == (attrs
            & FILE_ATTRIBUTE_TEMPORARY != 0),
        NodeFlags(flags_of(attrs)).has(NodeFlags(NodeFlags::NOT_INDEXED)) == (attrs
            & FILE_ATTRIBUTE_NOT_CONTENT_INDEXED != 0),
        NodeFlags(flags_of(attrs)).has(NodeFlags(NodeFlags::SPARSE)) == (attrs
            & FILE_ATTRIBUTE_SPARSE_FILE != 0),
        NodeFlags(flags_of(attrs)).has(NodeFlags(NodeFlags::REPARSE_POINT)) == reparse_point(
            attrs,
        ),
{
    let a = pick(attrs, FILE_ATTRIBUTE_ARCHIVE, NodeFlags::ARCHIVE);
    let b = pick(attrs, FILE_ATTRIBUTE_SYSTEM, NodeFlags::SYSTEM);
    let c = pick(attrs, FILE_ATTRIBUTE_READONLY, NodeFlags::READONLY);
    let d = pick(attrs, FILE_ATTRIBUTE_HIDDEN, NodeFlags::HIDDEN);
    let e = pick(attrs, FILE_ATTRIBUTE_COMPRESSED, NodeFlags::COMPRESSED);
    let f = pick(attrs, FILE_ATTRIBUTE_ENCRYPTED, NodeFlags::ENCRYPTED);
    let g = pick(attrs, FILE_ATTRIBUTE_OFFLINE, NodeFlags::OFFLINE);
    let h = pick(attrs, FILE_ATTRIBUTE_TEMPORARY, NodeFlags::TEMPORARY);
    let i = pick(attrs, FILE_ATTRIBUTE_NOT_CONTENT_INDEXED, NodeFlags::NOT_INDEXED);
    let j = pick(attrs, FILE_ATTRIBUTE_SPARSE_FILE, NodeFlags::SPARSE);
    let k = pick(attrs, FILE_ATTRIBUTE_REPARSE_POINT, NodeFlags::REPARSE_POINT);
    let all = 0u32 | a | b | c | d | e | f | g | h | i | j | k;
    assert(all == flags_of(attrs));
    assert((all & 0x1 == 0x1) == (a == 0x1) && (all & 0x2 == 0x2) == (b == 0x2) && (all & 0x4
        == 0x4) == (c == 0x4) && (all & 0x8 == 0x8) == (d == 0x8) && (all & 0x10 == 0x10) == (e
        == 0x10) && (all & 0x20 == 0x20) == (f == 0x20) && (all & 0x40 == 0x40) == (g == 0x40) && (
    all & 0x80 == 0x80) == (h == 0x80) && (all & 0x100 == 0x100) == (i == 0x100) && (all & 0x200
        == 0x200) == (j == 0x200) && (all & 0x1_0000 == 0x1_0000) == (k == 0x1_0000)) by (bit_vector)
        requires
            all == 0u32 | a | b | c | d | e | f | g | h | i | j | k,
            a == 0 || a == 0x1,
            b == 0 || b == 0x2,
            c == 0 || c == 0x4,
            d == 0 || d == 0x8,
            e == 0 || e == 0x10,
            f == 0 || f == 0x20,
            g == 0 || g == 0x40,
            h == 0 || h == 0x80,
            i == 0 || i == 0x100,
            j == 0 || j == 0x200,
            k == 0 || k == 0x1_0000,
    ;
}

/// What kind of path a scan starts at.
#[derive(Clone, Copy, PartialEq, Eq, Debug, Structural)]
pub enum PathClass {
    /// A path with a drive letter, given in upper case.
    Drive(u8),
    /// A path on the network.
    Unc,
    /// Any other path.
    Unsupported,
}

pub open spec fn is_separator(c: char) -> bool {
    c == '\\' || c == '/'
}

pub open spec fn is_letter(c: char) -> bool {
    'a' <= c <= 'z' || 'A' <= c <= 'Z'
}

/// A letter in upper case, as a byte.
pub open spec fn upper_letter(c: char) -> u8 {
    if 'a' <= c <= 'z' {
        (c as u8 - 32) as u8
    } else {
        c as u8
    }
}

/// The class of a path without a prefix.
pub open spec fn drive_class(s: Seq<char>) -> PathClass {
    if s.len() >= 2 && is_letter(s[0]) && s[1] == ':' {
        PathClass::Drive(upper_letter(s[0]))
    } else {
        PathClass::Unsupported
    }
}

/// Whether a path starts with `\\?\`.
pub open spec fn is_verbatim(s: Seq<char>) -> bool {
    s.len() >= 4 && s[0] == '\\' && s[1] == '\\' && s[2] == '?' && s[3] == '\\'
}

/// Whether a path starts with `\\.\`.
pub open spec fn is_device(s: Seq<char>) -> bool {
    s.len() >= 4 && s[0] == '\\' && s[1] == '\\' && s[2] == '.' && s[3] == '\\'
}

/// Whether a text starts with `UNC\`, whatever the case of the letters.
pub open spec fn is_unc(s: Seq<char>) -> bool {
    s.len() >= 4 && text::ascii_lower(s[0]) == 'u' && text::ascii_lower(s[1]) == 'n'
        && text::ascii_lower(s[2]) == 'c' && s[3] == '\\'
}

/// The class of a path by its shape.
pub open spec fn class_of(s: Seq<char>) -> PathClass {
    if is_verbatim(s) {
        if is_unc(s.skip(4)) {
            PathClass::Unc
        } else {
            drive_class(s.skip(4))
        }
    } else if is_device(s) {
        PathClass::Unsupported
    } else if s.len() >= 2 && is_separator(s[0]) && is_separator(s[1]) {
        PathClass::Unc
    } else {
        drive_class(s)
    }
}

fn separator(c: char) -> (r: bool)
    ensures
        r == is_separator(c),
{
    c == '\\' || c == '/'
}

/// The class of a path whose prefix ends at `from`.
fn classify_drive(s: &Vec<char>, from: usize) -> (r: PathClass)
    requires
        from <= s@.len(),
    ensures
        r == drive_class(s@.skip(from as int)),
{
    if s.len() - from >= 2 {
        let c: char = s[from];
        let letter = ('a' <= c && c <= 'z') || ('A' <= c && c <= 'Z');
        proof {
            assert(s@.skip(from as int)[0] == c);
            assert(s@.skip(from as int)[1] == s@[from + 1]);
        }
        if letter && s[from + 1] == ':' {
            let b: u8 = c as u8;
            return PathClass::Drive(
                if 'a' <= c && c <= 'z' {
                    b - 32
                } else {
                    b
                },
            );
        }
    }
    PathClass::Unsupported
}

fn verbatim(s: &Vec<char>) -> (r: bool)
    ensures
        r == is_verbatim(s@),
{
    s.len() >= 4 && s[0] == '\\' && s[1] == '\\' && s[2] == '?' && s[3] == '\\'
}

fn class_of_chars(s: &Vec<char>) -> (r: PathClass)
    ensures
        r == class_of(s@),
{
    if verbatim(s) {
        proof {
            if s@.len() >= 8 {
                assert(s@.skip(4)[0] == s@[4] && s@.skip(4)[1] == s@[5] && s@.skip(4)[2] == s@[6]
                    && s@.skip(4)[3] == s@[7]);
            }
        }
        if s.len() >= 8 && text::to_ascii_lower(s[4]) == 'u' && text::to_ascii_lower(s[5]) == 'n'
            && text::to_ascii_lower(s[6]) == 'c' && s[7] == '\\' {
            return PathClass::Unc;
        }
        return classify_drive(s, 4);
    }
    if s.len() >= 4 && s[0] == '\\' && s[1] == '\\' && s[2] == '.' && s[3] == '\\' {
        return PathClass::Unsupported;
    }
    if s.len() >= 2 && separator(s[0]) && separator(s[1]) {
        return PathClass::Unc;
    }
    proof {
        assert(s@.skip(0) =~= s@);
    }
    classify_drive(s, 0)
}

/// The class of a Windows path by its shape. Nothing is looked up on disk.
pub fn classify_path(path: &str) -> (r: PathClass)
    ensures
        r == class_of(path@),
{
    class_of_chars(&text::chars_of(path))
}

/// A text without the separators at its start.
pub open spec fn trim_left(s: Seq<char>) -> Seq<char>
    decreases s.len(),
{
    if s.len() > 0 && is_separator(s[0]) {
        trim_left(s.drop_first())
    } else {
        s
    }
}

/// A text without the separators at its end.
pub open spec fn trim_right(s: Seq<char>) -> Seq<char>
    decreases s.len(),
{
    if s.len() > 0 && is_separator(s.last()) {
        trim_right(s.drop_last())
    } else {
        s
    }
}

/// A text with backslashes in place of slashes.
pub open spec fn backslashed(s: Seq<char>) -> Seq<char> {
    Seq::new(
        s.len(),
        |i: int|
            if s[i] == '/' {
                '\\'
            } else {
                s[i]
            },
    )
}

/// What follows the drive of a path, without separators around it.
pub open spec fn suffix_of(s: Seq<char>) -> Option<Seq<char>> {
    if class_of(s) is Drive {
        Some(
            backslashed(
                trim_right(
                    trim_left(
                        if is_verbatim(s) {
                            s.skip(6)
                        } else {
                            s.skip(2)
                        },
                    ),
                ),
            ),
        )
    } else {
        None
    }
}

/// What follows the drive of a path, with backslashes between its parts and no
/// separators around it: `Users\foo` of `C:/Users/foo/`, nothing of `C:\`.
pub fn drive_suffix(path: &str) -> (r: Option<String>)
    ensures
        match r {
            Some(s) => suffix_of(path@) == Some(s@),
            None => suffix_of(path@) is None,
        },
{
    let s = text::chars_of(path);
    match class_of_chars(&s) {
        PathClass::Drive(_) => {},
        _ => {
            return None;
        },
    }
    let mut from: usize = if verbatim(&s) {
        6
    } else {
        2
    };
    let ghost all = s@.skip(from as int);
    while from < s.len() && separator(s[from])
        invariant
            from <= s@.len(),
            trim_left(all) == trim_left(s@.skip(from as int)),
        decreases s@.len() - from,
    {
        proof {
            assert(s@.skip(from as int)[0] == s@[from as int]);
            assert(s@.skip(from as int).drop_first() =~= s@.skip(from + 1));
        }
        from = from + 1;
    }
    proof {
        if from < s@.len() {
            assert(s@.skip(from as int)[0] == s@[from as int]);
        }
    }
    let mut rest = text::part(&s, from, s.len());
    let ghost middle = rest@;
    proof {
        assert(rest@ =~= s@.skip(from as int));
    }
    while rest.len() > 0 && separator(rest[rest.len() - 1])
        invariant
            trim_right(middle) == trim_right(rest@),
        decreases rest@.len(),
    {
        let _ = rest.pop();
    }
    let mut out: String = String::new();
    for i in 0..rest.len()
        invariant
            out@ == backslashed(rest@).take(i as int),
    {
        out.push(
            if rest[i] == '/' {
                '\\'
            } else {
                rest[i]
            },
        );
        proof {
            assert(out@ =~= backslashed(rest@).take(i + 1));
        }
    }
    proof {
        assert(backslashed(rest@).take(rest@.len() as int) =~= backslashed(rest@));
    }
    Some(out)
}

/// Which engine scans.
#[derive(Clone, Copy, PartialEq, Eq, Debug, Structural)]
pub enum EngineChoice {
    /// A walk over the directories.
    Walk,
    /// A read of the master file table.
    Mft,
}

/// Which engine is to scan, and whether the fast one would need elevation.
#[derive(Clone, Copy, PartialEq, Eq, Debug, Structural)]
pub struct EnginePlan {
    pub choice: EngineChoice,
    /// Whether the master file table could be read by an administrator.
    pub mft_requires_elevation: bool,
}

/// The plan for a path: the master file table of an NTFS volume that can be
/// opened, and a walk otherwise.
pub open spec fn plan_of(class: PathClass, fs_name: Option<&str>, volume_openable: bool) -> EnginePlan {
    let ntfs = class is Drive && fs_name is Some && text::same_ascii(fs_name->0@, "NTFS"@);
    EnginePlan {
        choice: if ntfs && volume_openable {
            EngineChoice::Mft
        } else {
            EngineChoice::Walk
        },
        mft_requires_elevation: ntfs && !volume_openable,
    }
}

/// The plan for a path, from what was found out about its volume.
pub fn decide_engine(class: PathClass, fs_name: Option<&str>, volume_openable: bool) -> (plan:
    EnginePlan)
    ensures
        plan == plan_of(class, fs_name, volume_openable),
{
    let drive = match class {
        PathClass::Drive(_) => true,
        _ => false,
    };
    let ntfs = match fs_name {
        Some(fs) => drive && text::eq_ignore_ascii(&text::chars_of(fs), &text::chars_of("NTFS")),
        None => false,
    };
    if ntfs && volume_openable {
        EnginePlan { choice: EngineChoice::Mft, mft_requires_elevation: false }
    } else {
        EnginePlan { choice: EngineChoice::Walk, mft_requires_elevation: ntfs }
    }
}

/// Each attribute bit of the file system becomes the flag of its name and no other
/// bit becomes that flag.
pub proof fn law_attribute_bits(attrs: u32)
    ensures
        (flags_of(attrs) & NodeFlags::READONLY != 0) == (attrs & 0x1 != 0),
        (flags_of(attrs) & NodeFlags::HIDDEN != 0) == (attrs & 0x2 != 0),
        (flags_of(attrs) & NodeFlags::SYSTEM != 0) == (attrs & 0x4 != 0),
        (flags_of(attrs) & NodeFlags::ARCHIVE != 0) == (attrs & 0x20 != 0),
        (flags_of(attrs) & NodeFlags::TEMPORARY != 0) == (attrs & 0x100 != 0),
        (flags_of(attrs) & NodeFlags::SPARSE != 0) == (attrs & 0x200 != 0),
        (flags_of(attrs) & NodeFlags::REPARSE_POINT != 0) == (attrs & 0x400 != 0),
        (flags_of(attrs) & NodeFlags::COMPRESSED != 0) == (attrs & 0x800 != 0),
        (flags_of(attrs) & NodeFlags::OFFLINE != 0) == (attrs & 0x1000 != 0),
        (flags_of(attrs) & NodeFlags::NOT_INDEXED != 0) == (attrs & 0x2000 != 0),
        (flags_of(attrs) & NodeFlags::ENCRYPTED != 0) == (attrs & 0x4000 != 0),
        flags_of(attrs) & NodeFlags::ACCESS_DENIED == 0,
        flags_of(attrs) & NodeFlags::HARDLINK_ALIAS == 0,
        directory(attrs) == (attrs & 0x10 != 0),
        reparse_point(attrs) == (attrs & 0x400 != 0),
{
    let f = flags_of(attrs);
    assert(f == 0u32 | (if attrs & 0x20 != 0 { 0x1u32 } else { 0 }) | (if attrs & 0x4 != 0 {
        0x2u32
    } else {
        0
    }) | (if attrs & 0x1 != 0 { 0x4u32 } else { 0 }) | (if attrs & 0x2 != 0 {
        0x8u32
    } else {
        0
    }) | (if attrs & 0x800 != 0 { 0x10u32 } else { 0 }) | (if attrs & 0x4000 != 0 {
        0x20u32
    } else {
        0
    }) | (if attrs & 0x1000 != 0 { 0x40u32 } else { 0 }) | (if attrs & 0x100 != 0 {
        0x80u32
    } else {
        0
    }) | (if attrs & 0x2000 != 0 { 0x100u32 } else { 0 }) | (if attrs & 0x200 != 0 {
        0x200u32
    } else {
        0
    }) | (if attrs & 0x400 != 0 { 0x1_0000u32 } else { 0 }));
    assert((f & 0x4 != 0) == (attrs & 0x1 != 0) && (f & 0x8 != 0) == (attrs & 0x2 != 0) && (f & 0x2
        != 0) == (attrs & 0x4 != 0) && (f & 0x1 != 0) == (attrs & 0x20 != 0) && (f & 0x80 != 0) == (
    attrs & 0x100 != 0) && (f & 0x200 != 0) == (attrs & 0x200 != 0) && (f & 0x1_0000 != 0) == (attrs
        & 0x400 != 0) && (f & 0x10 != 0) == (attrs & 0x800 != 0) && (f & 0x40 != 0) == (attrs
        & 0x1000 != 0) && (f & 0x100 != 0) == (attrs & 0x2000 != 0) && (f & 0x20 != 0) == (attrs
        & 0x4000 != 0) && f & 0x4_0000 == 0 && f & 0x8_0000 == 0) by (bit_vector)
        requires
            f == 0u32 | (if attrs & 0x20 != 0 { 0x1u32 } else { 0 }) | (if attrs & 0x4 != 0 {
                0x2u32
            } else {
                0
            }) | (if attrs & 0x1 != 0 { 0x4u32 } else { 0 }) | (if attrs & 0x2 != 0 {
                0x8u32
            } else {
                0
            }) | (if attrs & 0x800 != 0 { 0x10u32 } else { 0 }) | (if attrs & 0x4000 != 0 {
                0x20u32
            } else {
                0
            }) | (if attrs & 0x1000 != 0 { 0x40u32 } else { 0 }) | (if attrs & 0x100 != 0 {
                0x80u32
            } else {
                0
            }) | (if attrs & 0x2000 != 0 { 0x100u32 } else { 0 }) | (if attrs & 0x200 != 0 {
                0x200u32
            } else {
                0
            }) | (if attrs & 0x400 != 0 { 0x1_0000u32 } else { 0 }),
    ;
}

/// A path that starts with a letter and a colon lies on the drive of that letter,
/// in upper case, also behind the prefix that stands for a path taken as it is; two
/// separators at the start make a network path.
pub proof fn law_path_classes(rest: Seq<char>)
    ensures
        class_of(seq!['c', ':'] + rest) == PathClass::Drive(67),
        class_of(seq!['C', ':'] + rest) == PathClass::Drive(67),
        class_of(seq!['z', ':'] + rest) == PathClass::Drive(90),
        class_of(seq!['\\', '\\', '?', '\\', 'd', ':'] + rest) == PathClass::Drive(68),
        class_of(seq!['\\', '\\', '?', '\\', 'U', 'N', 'C', '\\'] + rest) == PathClass::Unc,
        class_of(seq!['\\', '\\', 's'] + rest) == PathClass::Unc,
        class_of(seq!['/', '/', 's'] + rest) == PathClass::Unc,
        class_of(seq!['\\', '\\', '.', '\\'] + rest) == PathClass::Unsupported,
        class_of(seq!['/', 'h'] + rest) == PathClass::Unsupported,
{
    let a = seq!['\\', '\\', '?', '\\', 'd', ':'] + rest;
    assert(a.skip(4)[0] == 'd');
    assert(a.skip(4)[1] == ':');
    let b = seq!['\\', '\\', '?', '\\', 'U', 'N', 'C', '\\'] + rest;
    assert(b.skip(4)[0] == 'U');
    assert(b.skip(4)[1] == 'N');
    assert(b.skip(4)[2] == 'C');
    assert(b.skip(4)[3] == '\\');
}

/// A path of any drive letter lies on the drive of that letter.
pub proof fn law_drive_letters(c: char, rest: Seq<char>)
    requires
        'a' <= c <= 'z' || 'A' <= c <= 'Z',
    ensures
        ({
            let class = class_of(seq![c, ':'] + rest);
            &&& 'A' <= c <= 'Z' ==> class == PathClass::Drive(c as u8)
            &&& 'a' <= c <= 'z' ==> class == PathClass::Drive((c as u8 - 32) as u8)
        }),
{
    let s = seq![c, ':'] + rest;
    assert(s[0] == c && s[1] == ':');
}

/// The file table of a volume is read only on a drive with NTFS that can be opened;
/// where it only cannot be opened, more rights would help; everything else is
/// walked.
pub proof fn law_engine(class: PathClass, fs_name: Option<&str>, openable: bool)
    ensures
        ({
            let ntfs = class is Drive && fs_name is Some && text::same_ascii(
                fs_name->0@,
                "NTFS"@,
            );
            let plan = plan_of(class, fs_name, openable);
            &&& plan.choice == EngineChoice::Mft <==> ntfs && openable
            &&& plan.choice == EngineChoice::Walk <==> !(ntfs && openable)
            &&& plan.mft_requires_elevation <==> ntfs && !openable
        }),
{
}

proof fn lemma_trims(s: Seq<char>)
    requires
        s.len() == 0 || !is_separator(s[0]) && !is_separator(s.last()),
    ensures
        trim_left(s) == s,
        trim_right(s) == s,
{
}

/// What follows the drive of a path is the path without the separators around it,
/// with backslashes.
pub proof fn law_drive_suffix(c: char, rest: Seq<char>)
    requires
        'a' <= c <= 'z' || 'A' <= c <= 'Z',
        rest.len() == 0 || !is_separator(rest[0]) && !is_separator(rest.last()),
    ensures
        ({
            let r = suffix_of(seq![c, ':', '\\'] + rest);
            &&& r is Some
            &&& r->0.len() == rest.len()
            &&& forall|i: int|
                0 <= i < rest.len() ==> #[trigger] r->0[i] == (if rest[i] == '/' {
                    '\\'
                } else {
                    rest[i]
                })
        }),
{
    let s = seq![c, ':', '\\'] + rest;
    assert(s[0] == c && s[1] == ':');
    let t = s.skip(2);
    assert(t[0] == '\\');
    assert(t.drop_first() =~= rest);
    lemma_trims(rest);
    assert(trim_left(t) == trim_left(t.drop_first()));
}

} // verus!
