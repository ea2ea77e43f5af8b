//! What a treemap of a view shows: which elements there are, how large they are,
//! which colours they have and what is said about them.
use vstd::prelude::*;
use vstd::string::*;

use crate::defaults::{ClassStyle, Rgb};
use crate::diskspace::DiskSpace;
use crate::filter;
use crate::filter::{Filter, FilterVerdict};
use crate::filter_ast::{ConditionKind, KindView};
use crate::filter_parse;
use crate::filter_texts;
use crate::glob;
use crate::model::State;
use crate::node::{Node, NodeKind};
use crate::sizes;
use crate::text;
use crate::time;
use crate::view;
use crate::view::{CellRect, ColorStyle, ScanView, FREE_SPACE_ID, UNKNOWN_SPACE_ID};
use crate::NodeId;

verus! {

/// What the user wants done with an element.
#[derive(Clone, Copy, PartialEq, Eq, Debug, Structural)]
pub enum TreemapCmd {
    Select(NodeId),
    /// Zoom in, starting from the rectangle of the element.
    Zoom(NodeId, CellRect),
    Open(NodeId),
    /// Show the element in the file manager.
    OpenContaining(NodeId),
    /// Move to the recycle bin.
    Delete(NodeId),
    /// Show the menu of the system's shell.
    ShellMenu(NodeId),
}

/// What a layout was made for.
#[derive(Clone, Copy, PartialEq, Eq, Debug, Structural)]
pub struct LayoutKey {
    pub zoom: NodeId,
    pub epoch: u64,
    pub model_epoch: u64,
    /// Whether all elements were sorted.
    pub sorted: bool,
    /// When it was made.
    pub time: u64,
}

/// Whether the next layout sorts all elements: while a scan runs only after the
/// user moved.
pub fn take_order(v: &mut ScanView) -> (sorted: bool)
    ensures
        sorted == (!old(v).scanning || old(v).resort_once),
        *final(v) == (ScanView { resort_once: false, ..*old(v) }),
{
    let sorted = !v.scanning || v.resort_once;
    v.resort_once = false;
    sorted
}

/// What the next layout is made for.
pub fn layout_key(v: &ScanView, sorted: bool, now: u64) -> (k: LayoutKey)
    ensures
        k == (LayoutKey {
            zoom: v.zoom,
            epoch: v.layout_epoch,
            model_epoch: v.model_epoch,
            sorted,
            time: now,
        }),
{
    LayoutKey {
        zoom: v.zoom,
        epoch: v.layout_epoch,
        model_epoch: v.model_epoch,
        sorted,
        time: now,
    }
}

/// Whether a layout can be shown once more: if nothing changed, and while a scan
/// runs for a short time although the tree did.
pub fn layout_reusable(v: &ScanView, key: &LayoutKey, sorted: bool, same_area: bool, now: u64) -> (r:
    bool)
    ensures
        r == (key.zoom == v.zoom && key.epoch == v.layout_epoch && key.sorted == sorted && same_area
            && (key.model_epoch == v.model_epoch || (v.scanning && now < key.time
            + view::LAYOUT_TICK_MS))),
{
    let recent = now < key.time || now - key.time < view::LAYOUT_TICK_MS;
    key.zoom == v.zoom && key.epoch == v.layout_epoch && key.sorted == sorted && same_area && (
    key.model_epoch == v.model_epoch || (v.scanning && recent))
}

/// The elements of some nodes with their sizes; what the filter hides is left
/// out where the view does not show it.
pub open spec fn shown_items(v: &ScanView, ids: Seq<NodeId>) -> Seq<(NodeId, u64)>
    decreases ids.len(),
{
    if ids.len() == 0 {
        Seq::empty()
    } else {
        let before = shown_items(v, ids.drop_last());
        let id = ids.last();
        if v.hard_hide_filtered && v.verdict_on(id) == FilterVerdict::Hidden {
            before
        } else {
            before.push((id, v.size(id)))
        }
    }
}

/// The elements that stand for no node: at the root of a drive its free space,
/// and while it is scanned what is not scanned yet.
pub open spec fn space_items(v: &ScanView, id: NodeId) -> Seq<(NodeId, u64)> {
    if id == v.root && v.is_drive_view && v.zoom == v.root {
        match v.drive_space {
            None => Seq::empty(),
            Some(ds) => {
                let free = if v.show_free_space && ds.free > 0 {
                    seq![(FREE_SPACE_ID, ds.free)]
                } else {
                    Seq::empty()
                };
                if v.scanning && v.show_unknown && v.unknown() > 0 {
                    free.push((UNKNOWN_SPACE_ID, v.unknown()))
                } else {
                    free
                }
            },
        }
    } else {
        Seq::empty()
    }
}

/// The elements inside that of a node, with their sizes.
pub fn layout_items(v: &ScanView, id: NodeId) -> (items: Vec<(NodeId, u64)>)
    requires
        v.wf(),
        v.state().live(id),
    ensures
        items@ == shown_items(v, v.state().kids[id]) + space_items(v, id),
{
    let ghost kids = v.state().kids[id];
    let children = v.tree().children(id).collect();
    let mut items: Vec<(NodeId, u64)> = Vec::new();
    proof {
        assert(kids.take(0) =~= Seq::empty());
        assert(v.state().node_ok(id));
    }
    for i in 0..children.len()
        invariant
            v.wf(),
            v.state().live(id),
            v.state().node_ok(id),
            kids == v.state().kids[id],
            children@ == kids,
            items@ == shown_items(v, kids.take(i as int)),
    {
        proof {
            assert(v.state().child_ok(id, i as int));
            assert(kids.take(i + 1).drop_last() =~= kids.take(i as int));
            assert(kids.take(i + 1).last() == kids[i as int]);
        }
        let child: NodeId = children[i];
        if !(v.hard_hide_filtered && v.verdict(child) == FilterVerdict::Hidden) {
            items.push((child, v.size_of(child)));
        }
    }
    let ghost shown = items@;
    proof {
        assert(kids.take(kids.len() as int) =~= kids);
    }
    if id == v.root && v.is_drive_view && v.zoom == v.root {
        if let Some(ds) = v.drive_space {
            if v.show_free_space && ds.free > 0 {
                items.push((FREE_SPACE_ID, ds.free));
            }
            let unknown: u64 = v.unknown_bytes();
            if v.scanning && v.show_unknown && unknown > 0 {
                items.push((UNKNOWN_SPACE_ID, unknown));
            }
        }
    }
    proof {
        assert(items@ =~= shown + space_items(v, id));
    }
    items
}

/// Whether the children of an element are shown inside it, if there is room.
pub fn shows_children(v: &ScanView, id: NodeId, depth: u32) -> (r: bool)
    requires
        v.wf(),
        id == FREE_SPACE_ID || id == UNKNOWN_SPACE_ID || v.state().live(id),
    ensures
        r == (id != FREE_SPACE_ID && id != UNKNOWN_SPACE_ID && v.state().nodes[id as int].kind
            == NodeKind::Directory && depth < v.display_depth),
{
    if id == FREE_SPACE_ID || id == UNKNOWN_SPACE_ID {
        return false;
    }
    proof {
        assert(v.state().node_ok(id));
    }
    v.tree().node(id).kind == NodeKind::Directory && depth < v.display_depth
}

/// Whether an element is shown dimmed.
pub fn is_dimmed(v: &ScanView, id: NodeId) -> (r: bool)
    ensures
        r == (v.filters() && v.verdict_on(id) != FilterVerdict::Visible),
{
    v.has_active_filter() && v.verdict(id) != FilterVerdict::Visible
}

/// Whether a filter asks for folders of a name.
pub open spec fn asks_for_folder(kind: KindView, name: Seq<char>) -> bool {
    kind matches KindView::FolderMask { pattern, negated } && !negated && glob::glob(pattern, name)
}

/// Whether the name of a folder is shown bold: the filter asks for it.
pub open spec fn bold(v: &ScanView, id: NodeId) -> bool {
    let node = v.state().nodes[id as int];
    node.kind == NodeKind::Directory && (v.filter_cache matches Some((_, f)) && exists|i: int|
        0 <= i < f@.conditions.len() && asks_for_folder(
            (#[trigger] f@.conditions[i]).kind,
            node.name@,
        ))
}

/// Whether the name of a folder is shown bold: the filter asks for it.
pub fn folder_mask_bold(v: &ScanView, id: NodeId) -> (r: bool)
    requires
        v.wf(),
        v.state().live(id),
    ensures
        r == bold(v, id),
{
    proof {
        assert(v.state().node_ok(id));
    }
    let node = v.tree().node(id);
    if node.kind != NodeKind::Directory {
        return false;
    }
    let f = match v.filter() {
        Some(f) => f,
        None => {
            return false;
        },
    };
    let conditions = f.conditions();
    for i in 0..conditions.len()
        invariant
            filter_parse::condition_views(conditions@) == f@.conditions,
            v.filter_cache matches Some((_, g)) && *f == g,
            *node == v.state().nodes[id as int],
            node.kind == NodeKind::Directory,
            forall|j: int|
                0 <= j < i ==> !asks_for_folder((#[trigger] f@.conditions[j]).kind, node.name@),
    {
        proof {
            assert(f@.conditions[i as int] == conditions@[i as int]@);
        }
        if let ConditionKind::FolderMask { pattern, negated } = &conditions[i].kind {
            if !*negated && glob::glob_match(pattern.as_str(), node.name.as_str()) {
                return true;
            }
        }
    }
    false
}

/// The colour of the first class that a name fits, if there is one.
pub open spec fn class_color(styles: Seq<ClassStyle>, name: Seq<char>) -> Option<Rgb>
    decreases styles.len(),
{
    if styles.len() == 0 {
        None
    } else if filter::in_class(name, styles[0].class@.extensions) {
        Some(styles[0].color)
    } else {
        class_color(styles.drop_first(), name)
    }
}

/// The colour of an element before it is shaded: by its kind or, if it is no
/// folder and the view asks for it, by its class.
pub open spec fn base_color(v: &ScanView, node: Node) -> Rgb {
    match v.color_style {
        ColorStyle::Flat => match node.kind {
            NodeKind::Directory => v.flat_colors.folder,
            NodeKind::FreeSpace => v.flat_colors.free_space,
            NodeKind::UnknownSpace | NodeKind::Unaccessible => v.flat_colors.unknown_space,
            NodeKind::File | NodeKind::Ads => v.flat_colors.file,
        },
        ColorStyle::FileClasses => if node.kind == NodeKind::Directory {
            v.flat_colors.folder
        } else {
            match class_color(v.class_styles@, node.name@) {
                Some(c) => c,
                None => v.flat_colors.file,
            }
        },
    }
}

fn find_class_color(styles: &Vec<ClassStyle>, name: &str) -> (r: Option<Rgb>)
    ensures
        r == class_color(styles@, name@),
{
    proof {
        assert(styles@.skip(0) =~= styles@);
    }
    for i in 0..styles.len()
        invariant
            class_color(styles@, name@) == class_color(styles@.skip(i as int), name@),
    {
        proof {
            assert(styles@.skip(i as int)[0] == styles@[i as int]);
            assert(styles@.skip(i as int).drop_first() =~= styles@.skip(i + 1));
        }
        if filter::class_matches(name, &styles[i].class.extensions) {
            return Some(styles[i].color);
        }
    }
    proof {
        assert(styles@.skip(styles@.len() as int) =~= Seq::empty());
    }
    None
}

/// The colour of an element before it is shaded.
pub fn cell_color(v: &ScanView, id: NodeId) -> (c: Rgb)
    requires
        v.wf(),
        v.state().live(id),
    ensures
        c == base_color(v, v.state().nodes[id as int]),
{
    proof {
        assert(v.state().node_ok(id));
    }
    let node = v.tree().node(id);
    match v.color_style {
        ColorStyle::Flat => match node.kind {
            NodeKind::Directory => v.flat_colors.folder,
            NodeKind::FreeSpace => v.flat_colors.free_space,
            NodeKind::UnknownSpace | NodeKind::Unaccessible => v.flat_colors.unknown_space,
            NodeKind::File | NodeKind::Ads => v.flat_colors.file,
        },
        ColorStyle::FileClasses => {
            if node.kind == NodeKind::Directory {
                return v.flat_colors.folder;
            }
            match find_class_color(&v.class_styles, node.name.as_str()) {
                Some(c) => c,
                None => v.flat_colors.file,
            }
        },
    }
}

/// What an element that stands for no node is called, its colour and its bytes.
pub fn pseudo_cell(v: &ScanView, id: NodeId) -> (r: (&'static str, Rgb, u64))
    ensures
        id == FREE_SPACE_ID ==> r.0@ == "Free space"@ && r.1 == v.flat_colors.free_space && r.2
            == match v.drive_space {
            Some(ds) => ds.free,
            None => 0,
        },
        id != FREE_SPACE_ID ==> r.0@ == "Not yet scanned"@ && r.1 == v.flat_colors.unknown_space
            && r.2 == v.unknown(),
{
    if id == FREE_SPACE_ID {
        (
            "Free space",
            v.flat_colors.free_space,
            match v.drive_space {
                Some(ds) => ds.free,
                None => 0,
            },
        )
    } else {
        ("Not yet scanned", v.flat_colors.unknown_space, v.unknown_bytes())
    }
}

/// What is said about an element.
pub open spec fn tooltip_of(s: State, id: NodeId) -> Seq<Seq<char>> {
    let n = s.nodes[id as int];
    let lines = seq![
        n.name@,
        s.path_to(id),
        "Logical size: "@ + sizes::bytes_text(n.agg_logical as nat),
        "On-disk size: "@ + sizes::bytes_text(n.agg_allocated as nat),
        "Created:  "@ + time::filetime_text(n.created as int),
        "Modified: "@ + time::filetime_text(n.modified as int),
        "Accessed: "@ + time::filetime_text(n.accessed as int),
    ];
    if n.kind == NodeKind::Directory {
        lines.push(
            "Children: "@ + text::dec(s.kids[id].len()) + " ("@ + text::dec(n.agg_files as nat)
                + " files, "@ + text::dec(n.agg_dirs as nat) + " dirs total)"@,
        )
    } else {
        lines
    }
}

fn labelled(label: &str, value: String) -> (s: String)
    ensures
        s@ == label@ + value@,
{
    let mut s = label.to_owned();
    s.append(value.as_str());
    s
}

/// What is said about an element: its name, its path, its sizes and times, and
/// of a folder what is in it.
pub fn tooltip(v: &ScanView, id: NodeId) -> (lines: Vec<String>)
    requires
        v.wf(),
        v.state().live(id),
    ensures
        text::texts(lines@) == tooltip_of(v.state(), id),
{
    proof {
        assert(v.state().node_ok(id));
    }
    let node = v.tree().node(id);
    let mut lines: Vec<String> = Vec::new();
    lines.push(node.name.clone());
    lines.push(v.tree().path(id));
    lines.push(labelled("Logical size: ", sizes::format_bytes(node.agg_logical)));
    lines.push(labelled("On-disk size: ", sizes::format_bytes(node.agg_allocated)));
    lines.push(labelled("Created:  ", time::format_filetime(node.created)));
    lines.push(labelled("Modified: ", time::format_filetime(node.modified)));
    lines.push(labelled("Accessed: ", time::format_filetime(node.accessed)));
    if node.kind == NodeKind::Directory {
        let mut s = "Children: ".to_owned();
        text::push_decimal(&mut s, v.tree().children(id).count() as u64);
        s.append(" (");
        text::push_decimal(&mut s, node.agg_files);
        s.append(" files, ");
        text::push_decimal(&mut s, node.agg_dirs);
        s.append(" dirs total)");
        lines.push(s);
    }
    proof {
        assert(text::texts(lines@) =~= tooltip_of(v.state(), id));
    }
    lines
}

/// What clicks on an element mean: one selects it, two zoom into it if it is a
/// folder. A third click goes with the second.
pub open spec fn click_cmds(
    s: State,
    id: NodeId,
    rect: CellRect,
    clicked: bool,
    doubled: bool,
) -> Seq<TreemapCmd> {
    let first = if clicked {
        seq![TreemapCmd::Select(id)]
    } else {
        Seq::empty()
    };
    if doubled && s.nodes[id as int].kind == NodeKind::Directory {
        first.push(TreemapCmd::Zoom(id, rect))
    } else {
        first
    }
}

/// What clicks on an element mean.
pub fn clicks(
    v: &ScanView,
    id: NodeId,
    rect: CellRect,
    clicked: bool,
    double_clicked: bool,
    triple_clicked: bool,
) -> (cmds: Vec<TreemapCmd>)
    requires
        v.wf(),
        v.state().live(id),
    ensures
        cmds@ == click_cmds(v.state(), id, rect, clicked, double_clicked || triple_clicked),
{
    proof {
        assert(v.state().node_ok(id));
    }
    let mut cmds: Vec<TreemapCmd> = Vec::new();
    if clicked {
        cmds.push(TreemapCmd::Select(id));
    }
    if (double_clicked || triple_clicked) && v.tree().node(id).kind == NodeKind::Directory {
        cmds.push(TreemapCmd::Zoom(id, rect));
    }
    proof {
        assert(cmds@ =~= click_cmds(
            v.state(),
            id,
            rect,
            clicked,
            double_clicked || triple_clicked,
        ));
    }
    cmds
}

/// Whether an extension is among those of a class, whatever the case of its
/// ASCII letters.
pub open spec fn among(style: ClassStyle, ext: Seq<char>) -> bool {
    exists|k: int|
        0 <= k < style.class.extensions@.len() && text::same_ascii(
            (#[trigger] style.class.extensions@[k])@,
            ext,
        )
}

proof fn lemma_first_class(styles: Seq<ClassStyle>, name: Seq<char>, ext: Seq<char>, i: int)
    requires
        filter::extension(name) == Some(ext),
        ext.len() > 0,
        0 <= i <= styles.len(),
        forall|j: int| 0 <= j < i ==> !among(#[trigger] styles[j], ext),
        i < styles.len() ==> among(styles[i], ext),
    ensures
        class_color(styles, name) == (if i < styles.len() {
            Some(styles[i].color)
        } else {
            None
        }),
    decreases styles.len(),
{
    if styles.len() > 0 {
        let exts = styles[0].class@.extensions;
        assert(exts.len() == styles[0].class.extensions@.len());
        assert(forall|k: int|
            0 <= k < exts.len() ==> #[trigger] exts[k] == styles[0].class.extensions@[k]@);
        assert(filter::in_class(name, exts) == among(styles[0], ext)) by {
            if among(styles[0], ext) {
                let k = choose|k: int|
                    0 <= k < styles[0].class.extensions@.len() && text::same_ascii(
                        (#[trigger] styles[0].class.extensions@[k])@,
                        ext,
                    );
                assert(text::same_ascii(exts[k], ext));
            }
        }
        if i > 0 {
            let rest = styles.drop_first();
            assert forall|j: int| 0 <= j < i - 1 implies !among(#[trigger] rest[j], ext) by {
                assert(rest[j] == styles[j + 1]);
            }
            lemma_first_class(rest, name, ext, i - 1);
        }
    }
}

/// In the style of file classes a file has the colour of the first class that
/// lists its extension, which is what follows the last dot of its name.
pub proof fn law_first_class_colors(
    v: &ScanView,
    node: Node,
    stem: Seq<char>,
    ext: Seq<char>,
    i: int,
)
    requires
        v.color_style == ColorStyle::FileClasses,
        node.kind != NodeKind::Directory,
        node.name@ == stem + seq!['.'] + ext,
        !ext.contains('.'),
        ext.len() > 0,
        0 <= i < v.class_styles@.len(),
        among(v.class_styles@[i], ext),
        forall|j: int| 0 <= j < i ==> !among(#[trigger] v.class_styles@[j], ext),
    ensures
        base_color(v, node) == v.class_styles@[i].color,
{
    filter_texts::law_extension(stem, ext);
    lemma_first_class(v.class_styles@, node.name@, ext, i);
}

/// In the style of file classes a file whose extension no class lists, or that has
/// none, has the flat colour of files, and a folder that of folders.
pub proof fn law_unclassed_colors(v: &ScanView, node: Node, stem: Seq<char>, ext: Seq<char>)
    requires
        v.color_style == ColorStyle::FileClasses,
        !ext.contains('.'),
        node.name@ == ext || node.name@ == stem + seq!['.'] + ext,
        node.name@ != ext ==> forall|j: int|
            0 <= j < v.class_styles@.len() ==> !among(#[trigger] v.class_styles@[j], ext),
    ensures
        node.kind != NodeKind::Directory ==> base_color(v, node) == v.flat_colors.file,
        node.kind == NodeKind::Directory ==> base_color(v, node) == v.flat_colors.folder,
{
    if node.name@ == ext {
        filter_texts::law_no_extension(ext);
        lemma_without_extension(v.class_styles@, ext);
    } else {
        filter_texts::law_extension(stem, ext);
        if ext.len() == 0 {
            lemma_without_extension(v.class_styles@, node.name@);
        } else {
            lemma_first_class(v.class_styles@, node.name@, ext, v.class_styles@.len() as int);
        }
    }
}

proof fn lemma_without_extension(styles: Seq<ClassStyle>, name: Seq<char>)
    requires
        filter::extension(name) matches Some(e) ==> e.len() == 0,
    ensures
        class_color(styles, name) is None,
    decreases styles.len(),
{
    if styles.len() > 0 {
        lemma_without_extension(styles.drop_first(), name);
    }
}

/// In the flat style the kind of a node alone decides its colour.
pub proof fn law_flat_colors(v: &ScanView, node: Node)
    requires
        v.color_style == ColorStyle::Flat,
    ensures
        node.kind == NodeKind::Directory ==> base_color(v, node) == v.flat_colors.folder,
        node.kind == NodeKind::File || node.kind == NodeKind::Ads ==> base_color(v, node)
            == v.flat_colors.file,
        node.kind == NodeKind::FreeSpace ==> base_color(v, node) == v.flat_colors.free_space,
        node.kind == NodeKind::UnknownSpace || node.kind == NodeKind::Unaccessible ==> base_color(
            v,
            node,
        ) == v.flat_colors.unknown_space,
{
}

proof fn lemma_shown(v: &ScanView, ids: Seq<NodeId>)
    ensures
        forall|id: NodeId, size: u64|
            #[trigger] shown_items(v, ids).contains((id, size)) <==> ids.contains(id) && size
                == v.size(id) && !(v.hard_hide_filtered && v.verdict_on(id)
                == FilterVerdict::Hidden),
        shown_items(v, ids).len() <= ids.len(),
    decreases ids.len(),
{
    if ids.len() > 0 {
        lemma_shown(v, ids.drop_last());
        let before = shown_items(v, ids.drop_last());
        let all = shown_items(v, ids);
        let last = ids.last();
        assert forall|id: NodeId, size: u64|
            #[trigger] all.contains((id, size)) <==> ids.contains(id) && size == v.size(id) && !(
            v.hard_hide_filtered && v.verdict_on(id) == FilterVerdict::Hidden) by {
            let item = (id, size);
            if all.contains(item) {
                let k = choose|k: int| 0 <= k < all.len() && all[k] == item;
                if k < before.len() {
                    assert(before[k] == item);
                    assert(before.contains(item));
                    let j = choose|j: int|
                        0 <= j < ids.drop_last().len() && ids.drop_last()[j] == id;
                    assert(ids[j] == id);
                } else {
                    assert(ids[ids.len() - 1] == id);
                }
            }
            if ids.contains(id) && size == v.size(id) && !(v.hard_hide_filtered && v.verdict_on(id)
                == FilterVerdict::Hidden) {
                let j = choose|j: int| 0 <= j < ids.len() && ids[j] == id;
                if j < ids.len() - 1 {
                    assert(ids.drop_last()[j] == id);
                    assert(before.contains(item));
                    let k = choose|k: int| 0 <= k < before.len() && before[k] == item;
                    assert(all[k] == item);
                } else {
                    assert(all[before.len() as int] == item);
                }
            }
        }
    }
}

/// Every child of a folder has an element, with its size in the view's mode,
/// unless the filter hides it and what is hidden is left out.
pub proof fn law_children_have_elements(v: &ScanView, id: NodeId, child: NodeId, size: u64)
    ensures
        shown_items(v, v.state().kids[id]).contains((child, size)) <==> {
            &&& v.state().kids[id].contains(child)
            &&& size == v.size(child)
            &&& !v.hard_hide_filtered || v.verdict_on(child) != FilterVerdict::Hidden
        },
{
    lemma_shown(v, v.state().kids[id]);
}

/// Free space has an element at the root of a drive that is shown whole, where it
/// is asked for and there is some; space that is not scanned yet has one only while
/// the scan runs. Folders below the root and views of folders have neither.
pub proof fn law_space_elements(v: &ScanView, id: NodeId, ds: DiskSpace)
    requires
        v.drive_space == Some(ds),
    ensures
        ({
            let at_root = id == v.root && v.zoom == v.root && v.is_drive_view;
            let items = space_items(v, id);
            &&& items.contains((FREE_SPACE_ID, ds.free)) <==> at_root && v.show_free_space && ds.free
                > 0
            &&& items.contains((UNKNOWN_SPACE_ID, v.unknown())) <==> at_root && v.scanning
                && v.show_unknown && v.unknown() > 0
            &&& forall|k: int|
                0 <= k < items.len() ==> (#[trigger] items[k]).0 == FREE_SPACE_ID || items[k].0
                    == UNKNOWN_SPACE_ID
            &&& items.len() <= 2
        }),
{
    let items = space_items(v, id);
    let at_root = id == v.root && v.zoom == v.root && v.is_drive_view;
    if at_root && v.show_free_space && ds.free > 0 {
        assert(items[0] == (FREE_SPACE_ID, ds.free));
    }
    if at_root && v.scanning && v.show_unknown && v.unknown() > 0 {
        assert(items[items.len() - 1] == (UNKNOWN_SPACE_ID, v.unknown()));
    }
}

/// A click selects what it hits, and a double click on a folder zooms into it;
/// nothing else comes of clicks.
pub proof fn law_clicks(s: State, id: NodeId, rect: CellRect, clicked: bool, doubled: bool)
    ensures
        ({
            let cmds = click_cmds(s, id, rect, clicked, doubled);
            let folder = s.nodes[id as int].kind == NodeKind::Directory;
            &&& !clicked && !(doubled && folder) ==> cmds.len() == 0
            &&& clicked && !(doubled && folder) ==> cmds == seq![TreemapCmd::Select(id)]
            &&& !clicked && doubled && folder ==> cmds == seq![TreemapCmd::Zoom(id, rect)]
            &&& clicked && doubled && folder ==> cmds == seq![
                TreemapCmd::Select(id),
                TreemapCmd::Zoom(id, rect),
            ]
        }),
{
}

/// The lines about an element name each value for what it is.
pub proof fn law_tooltip_lines(s: State, id: NodeId)
    ensures
        ({
            let n = s.nodes[id as int];
            let lines = tooltip_of(s, id);
            &&& lines[0] == n.name@
            &&& lines[1] == s.path_to(id)
            &&& lines[2] == "Logical size: "@ + sizes::bytes_text(n.agg_logical as nat)
            &&& lines[3] == "On-disk size: "@ + sizes::bytes_text(n.agg_allocated as nat)
            &&& lines[4] == "Created:  "@ + time::filetime_text(n.created as int)
            &&& lines[5] == "Modified: "@ + time::filetime_text(n.modified as int)
            &&& lines[6] == "Accessed: "@ + time::filetime_text(n.accessed as int)
            &&& n.kind != NodeKind::Directory ==> lines.len() == 7
            &&& n.kind == NodeKind::Directory ==> lines.len() == 8 && lines[7] == "Children: "@
                + text::dec(s.kids[id].len()) + " ("@ + text::dec(n.agg_files as nat)
                + " files, "@ + text::dec(n.agg_dirs as nat) + " dirs total)"@
        }),
{
}

/// A folder's name is bold exactly if a folder mask of the filter that is not
/// negated matches it; names of files never are.
pub proof fn law_bold_names(v: &ScanView, id: NodeId, text: String, f: Filter)
    ensures
        v.state().nodes[id as int].kind != NodeKind::Directory ==> !bold(v, id),
        v.filter_cache is None ==> !bold(v, id),
        v.filter_cache == Some((text, f)) && v.state().nodes[id as int].kind
            == NodeKind::Directory ==> (bold(v, id) <==> exists|i: int|
            0 <= i < f@.conditions.len() && ((#[trigger] f@.conditions[i]).kind
                matches KindView::FolderMask { pattern, negated } && !negated && glob::glob(
                pattern,
                v.state().nodes[id as int].name@,
            ))),
{
}

} // verus!
