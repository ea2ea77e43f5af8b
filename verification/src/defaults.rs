//! The colours and file classes that the program comes with.
use vstd::prelude::*;
use vstd::string::*;

use crate::filter_ast;
use crate::filter_ast::{ClassView, FileClass};
use crate::node::Tag;

verus! {

/// A colour.
#[derive(Clone, Copy, PartialEq, Eq, Debug, Structural)]
pub struct Rgb {
    pub r: u8,
    pub g: u8,
    pub b: u8,
}

/// The colour with the given parts.
pub open spec fn rgb(r: u8, g: u8, b: u8) -> Rgb {
    Rgb { r, g, b }
}

/// The colours of elements by their kind.
#[derive(Clone, Copy, PartialEq, Eq, Debug, Structural)]
pub struct FlatColors {
    pub folder: Rgb,
    pub file: Rgb,
    pub free_space: Rgb,
    pub unknown_space: Rgb,
}

/// A file class and its colour.
#[derive(Debug, PartialEq, Eq)]
pub struct ClassStyle {
    pub class: FileClass,
    pub color: Rgb,
}

/// A file class and its colour in mathematical terms.
#[verifier::ext_equal]
pub struct StyleView {
    pub class: ClassView,
    pub color: Rgb,
}

impl View for ClassStyle {
    type V = StyleView;

    open spec fn view(&self) -> StyleView {
        StyleView { class: self.class@, color: self.color }
    }
}

/// File classes and their colours in mathematical terms.
pub open spec fn style_views(v: Seq<ClassStyle>) -> Seq<StyleView> {
    Seq::new(v.len(), |i: int| v[i]@)
}

/// The names and extensions of the file classes; the first that fits counts.
pub open spec fn class_table() -> Seq<ClassView> {
    seq![
        ClassView {
            name: "Audio/Music"@,
            extensions: seq!["mp3"@, "wav"@, "flac"@, "ogg"@, "aac"@, "m4a"@, "wma"@],
        },
        ClassView {
            name: "Images"@,
            extensions: seq![
                "jpg"@,
                "jpeg"@,
                "png"@,
                "gif"@,
                "bmp"@,
                "tiff"@,
                "webp"@,
                "ico"@,
            ],
        },
        ClassView {
            name: "Video"@,
            extensions: seq!["mp4"@, "mkv"@, "avi"@, "mov"@, "wmv"@, "webm"@, "m4v"@],
        },
        ClassView {
            name: "Archives"@,
            extensions: seq!["zip"@, "rar"@, "7z"@, "tar"@, "gz"@, "bz2"@, "xz"@],
        },
        ClassView {
            name: "Documents"@,
            extensions: seq![
                "pdf"@,
                "doc"@,
                "docx"@,
                "xls"@,
                "xlsx"@,
                "ppt"@,
                "pptx"@,
                "txt"@,
                "md"@,
            ],
        },
        ClassView {
            name: "Executables"@,
            extensions: seq!["exe"@, "dll"@, "sys"@, "msi"@, "bat"@, "ps1"@, "com"@],
        },
        ClassView {
            name: "Code"@,
            extensions: seq![
                "rs"@,
                "c"@,
                "cpp"@,
                "h"@,
                "hpp"@,
                "py"@,
                "js"@,
                "ts"@,
                "java"@,
                "go"@,
            ],
        },
    ]
}

/// The file classes in the given colours.
pub open spec fn class_styles(colors: Seq<Rgb>) -> Seq<StyleView> {
    Seq::new(
        class_table().len(),
        |i: int| StyleView { class: class_table()[i], color: colors[i] },
    )
}

/// The colours of the file classes.
pub open spec fn class_colors() -> Seq<Rgb> {
    seq![
        rgb(0xB0, 0x7A, 0xA1),
        rgb(0x59, 0xA1, 0x4F),
        rgb(0xE1, 0x57, 0x59),
        rgb(0xF2, 0x8E, 0x2B),
        rgb(0x4E, 0x79, 0xA7),
        rgb(0x9C, 0x75, 0x5F),
        rgb(0x76, 0xB7, 0xB2),
    ]
}

/// The colours of the file classes in a dark window.
pub open spec fn dark_class_colors() -> Seq<Rgb> {
    seq![
        rgb(0xB0, 0x7A, 0xA1),
        rgb(0x59, 0xA1, 0x4F),
        rgb(0xE1, 0x57, 0x59),
        rgb(0xF2, 0x8E, 0x2B),
        rgb(0x4E, 0x79, 0xA7),
        rgb(0x7A, 0x59, 0x44),
        rgb(0x5E, 0x8F, 0x8D),
    ]
}

/// The colours of the file classes in a light window.
pub open spec fn light_class_colors() -> Seq<Rgb> {
    seq![
        rgb(0x7A, 0x4E, 0x6E),
        rgb(0x38, 0x6E, 0x31),
        rgb(0xA8, 0x32, 0x34),
        rgb(0xA8, 0x5E, 0x0A),
        rgb(0x33, 0x5E, 0x8C),
        rgb(0x6E, 0x50, 0x3C),
        rgb(0x47, 0x80, 0x7E),
    ]
}

/// One file class in a colour.
fn style(name: &str, extensions: &[&str], color: Rgb) -> (s: ClassStyle)
    ensures
        s@.class.name == name@,
        s@.class.extensions.len() == extensions@.len(),
        forall|i: int|
            0 <= i < extensions@.len() ==> #[trigger] s@.class.extensions[i] == extensions@[i]@,
        s@.color == color,
{
    let mut list: Vec<String> = Vec::new();
    for i in 0..extensions.len()
        invariant
            list@.len() == i,
            forall|j: int| 0 <= j < i ==> (#[trigger] list@[j])@ == extensions@[j]@,
    {
        list.push(extensions[i].to_owned());
    }
    ClassStyle { class: FileClass { name: name.to_owned(), extensions: list }, color }
}

/// The file classes in seven colours.
fn classes_with(colors: [Rgb; 7]) -> (v: Vec<ClassStyle>)
    ensures
        style_views(v@) == class_styles(colors@),
{
    let mut v: Vec<ClassStyle> = Vec::new();
    v.push(style("Audio/Music", &["mp3", "wav", "flac", "ogg", "aac", "m4a", "wma"], colors[0]));
    v.push(
        style("Images", &["jpg", "jpeg", "png", "gif", "bmp", "tiff", "webp", "ico"], colors[1]),
    );
    v.push(style("Video", &["mp4", "mkv", "avi", "mov", "wmv", "webm", "m4v"], colors[2]));
    v.push(style("Archives", &["zip", "rar", "7z", "tar", "gz", "bz2", "xz"], colors[3]));
    v.push(
        style(
            "Documents",
            &["pdf", "doc", "docx", "xls", "xlsx", "ppt", "pptx", "txt", "md"],
            colors[4],
        ),
    );
    v.push(style("Executables", &["exe", "dll", "sys", "msi", "bat", "ps1", "com"], colors[5]));
    v.push(
        style("Code", &["rs", "c", "cpp", "h", "hpp", "py", "js", "ts", "java", "go"], colors[6]),
    );
    proof {
        let table = class_table();
        assert(v@[0]@.class.extensions =~= table[0].extensions);
        assert(v@[1]@.class.extensions =~= table[1].extensions);
        assert(v@[2]@.class.extensions =~= table[2].extensions);
        assert(v@[3]@.class.extensions =~= table[3].extensions);
        assert(v@[4]@.class.extensions =~= table[4].extensions);
        assert(v@[5]@.class.extensions =~= table[5].extensions);
        assert(v@[6]@.class.extensions =~= table[6].extensions);
        assert(style_views(v@) =~= class_styles(colors@));
    }
    v
}

/// The file classes in their own colours.
pub fn file_class_styles() -> (v: Vec<ClassStyle>)
    ensures
        style_views(v@) == class_styles(class_colors()),
{
    let colors = [
        Rgb { r: 0xB0, g: 0x7A, b: 0xA1 },
        Rgb { r: 0x59, g: 0xA1, b: 0x4F },
        Rgb { r: 0xE1, g: 0x57, b: 0x59 },
        Rgb { r: 0xF2, g: 0x8E, b: 0x2B },
        Rgb { r: 0x4E, g: 0x79, b: 0xA7 },
        Rgb { r: 0x9C, g: 0x75, b: 0x5F },
        Rgb { r: 0x76, g: 0xB7, b: 0xB2 },
    ];
    proof {
        assert(colors@ =~= class_colors());
    }
    classes_with(colors)
}

/// The colour of a tag.
pub open spec fn tag_rgb(tag: Tag) -> Rgb {
    match tag {
        Tag::Red => rgb(0xE2, 0x4A, 0x33),
        Tag::Yellow => rgb(0xED, 0xC9, 0x48),
        Tag::Green => rgb(0x4F, 0xA9, 0x5B),
        Tag::Blue => rgb(0x4A, 0x90, 0xD9),
    }
}

/// The colour of a tag.
pub fn tag_color(tag: Tag) -> (c: Rgb)
    ensures
        c == tag_rgb(tag),
{
    match tag {
        Tag::Red => Rgb { r: 0xE2, g: 0x4A, b: 0x33 },
        Tag::Yellow => Rgb { r: 0xED, g: 0xC9, b: 0x48 },
        Tag::Green => Rgb { r: 0x4F, g: 0xA9, b: 0x5B },
        Tag::Blue => Rgb { r: 0x4A, g: 0x90, b: 0xD9 },
    }
}

/// All colours of a window.
#[derive(Debug, PartialEq, Eq)]
pub struct Palette {
    pub flat: FlatColors,
    /// The colours of the tags: red, yellow, green, blue.
    pub tags: [Rgb; 4],
    pub classes: Vec<ClassStyle>,
    /// By how many per cent of its brightness an element changes from level to
    /// level: below a hundred it darkens, above it lightens.
    pub level_contrast: u32,
}

/// The colours of a window in mathematical terms.
#[verifier::ext_equal]
pub struct PaletteView {
    pub flat: FlatColors,
    pub tags: Seq<Rgb>,
    pub classes: Seq<StyleView>,
    pub level_contrast: u32,
}

impl View for Palette {
    type V = PaletteView;

    open spec fn view(&self) -> PaletteView {
        PaletteView {
            flat: self.flat,
            tags: self.tags@,
            classes: style_views(self.classes@),
            level_contrast: self.level_contrast,
        }
    }
}

/// The colours of a dark window, where what is deeper is lighter, or of a light
/// one, where it is darker.
pub open spec fn palette_of(dark: bool) -> PaletteView {
    if dark {
        PaletteView {
            flat: FlatColors {
                folder: rgb(0x8A, 0x9A, 0xB0),
                file: rgb(0x4E, 0x79, 0xA7),
                free_space: rgb(0x3A, 0x3A, 0x3A),
                unknown_space: rgb(0x5A, 0x4A, 0x6A),
            },
            tags: seq![
                tag_rgb(Tag::Red),
                tag_rgb(Tag::Yellow),
                tag_rgb(Tag::Green),
                tag_rgb(Tag::Blue),
            ],
            classes: class_styles(dark_class_colors()),
            level_contrast: 112,
        }
    } else {
        PaletteView {
            flat: FlatColors {
                folder: rgb(0x5E, 0x6E, 0x84),
                file: rgb(0x33, 0x5E, 0x8C),
                free_space: rgb(0xC8, 0xC8, 0xC8),
                unknown_space: rgb(0x6B, 0x55, 0x80),
            },
            tags: seq![
                rgb(0xB8, 0x30, 0x1C),
                rgb(0x8F, 0x71, 0x0A),
                rgb(0x2F, 0x7A, 0x3B),
                rgb(0x2C, 0x66, 0xA8),
            ],
            classes: class_styles(light_class_colors()),
            level_contrast: 85,
        }
    }
}

/// The colours of a dark or a light window.
pub fn palette(dark: bool) -> (p: Palette)
    ensures
        p@ == palette_of(dark),
{
    if dark {
        let colors = [
            Rgb { r: 0xB0, g: 0x7A, b: 0xA1 },
            Rgb { r: 0x59, g: 0xA1, b: 0x4F },
            Rgb { r: 0xE1, g: 0x57, b: 0x59 },
            Rgb { r: 0xF2, g: 0x8E, b: 0x2B },
            Rgb { r: 0x4E, g: 0x79, b: 0xA7 },
            Rgb { r: 0x7A, g: 0x59, b: 0x44 },
            Rgb { r: 0x5E, g: 0x8F, b: 0x8D },
        ];
        proof {
            assert(colors@ =~= dark_class_colors());
        }
        let p = Palette {
            flat: FlatColors {
                folder: Rgb { r: 0x8A, g: 0x9A, b: 0xB0 },
                file: Rgb { r: 0x4E, g: 0x79, b: 0xA7 },
                free_space: Rgb { r: 0x3A, g: 0x3A, b: 0x3A },
                unknown_space: Rgb { r: 0x5A, g: 0x4A, b: 0x6A },
            },
            tags: [
                tag_color(Tag::Red),
                tag_color(Tag::Yellow),
                tag_color(Tag::Green),
                tag_color(Tag::Blue),
            ],
            classes: classes_with(colors),
            level_contrast: 112,
        };
        proof {
            assert(p@.tags =~= palette_of(dark).tags);
        }
        p
    } else {
        let colors = [
            Rgb { r: 0x7A, g: 0x4E, b: 0x6E },
            Rgb { r: 0x38, g: 0x6E, b: 0x31 },
            Rgb { r: 0xA8, g: 0x32, b: 0x34 },
            Rgb { r: 0xA8, g: 0x5E, b: 0x0A },
            Rgb { r: 0x33, g: 0x5E, b: 0x8C },
            Rgb { r: 0x6E, g: 0x50, b: 0x3C },
            Rgb { r: 0x47, g: 0x80, b: 0x7E },
        ];
        proof {
            assert(colors@ =~= light_class_colors());
        }
        let p = Palette {
            flat: FlatColors {
                folder: Rgb { r: 0x5E, g: 0x6E, b: 0x84 },
                file: Rgb { r: 0x33, g: 0x5E, b: 0x8C },
                free_space: Rgb { r: 0xC8, g: 0xC8, b: 0xC8 },
                unknown_space: Rgb { r: 0x6B, g: 0x55, b: 0x80 },
            },
            tags: [
                Rgb { r: 0xB8, g: 0x30, b: 0x1C },
                Rgb { r: 0x8F, g: 0x71, b: 0x0A },
                Rgb { r: 0x2F, g: 0x7A, b: 0x3B },
                Rgb { r: 0x2C, g: 0x66, b: 0xA8 },
            ],
            classes: classes_with(colors),
            level_contrast: 85,
        };
        proof {
            assert(p@.tags =~= palette_of(dark).tags);
        }
        p
    }
}

/// Each tag has its colour, the same in the dark palette and for marks, and the
/// palettes differ.
pub proof fn law_tag_colors()
    ensures
        tag_rgb(Tag::Red) == (Rgb { r: 0xE2, g: 0x4A, b: 0x33 }),
        tag_rgb(Tag::Yellow) == (Rgb { r: 0xED, g: 0xC9, b: 0x48 }),
        tag_rgb(Tag::Green) == (Rgb { r: 0x4F, g: 0xA9, b: 0x5B }),
        tag_rgb(Tag::Blue) == (Rgb { r: 0x4A, g: 0x90, b: 0xD9 }),
        palette_of(true).tags == seq![
            tag_rgb(Tag::Red),
            tag_rgb(Tag::Yellow),
            tag_rgb(Tag::Green),
            tag_rgb(Tag::Blue),
        ],
        palette_of(true).level_contrast > palette_of(false).level_contrast,
        palette_of(true).flat != palette_of(false).flat,
{
}

/// Every class of either palette has the name and the extensions of the table, in
/// its order.
pub proof fn law_palette_classes(dark: bool, i: int)
    requires
        0 <= i < class_table().len(),
    ensures
        palette_of(dark).classes.len() == class_table().len(),
        palette_of(dark).classes[i].class == class_table()[i],
        palette_of(dark).classes[i].color == (if dark {
            dark_class_colors()[i]
        } else {
            light_class_colors()[i]
        }),
{
}

} // verus!
