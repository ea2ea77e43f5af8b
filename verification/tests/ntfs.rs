//! Volumes, paths and attributes, and the engine for each.
use rss::node::NodeFlags;
use rss::ntfs::{
    classify_path, decide_engine, drive_suffix, is_directory, is_reparse_point,
    node_flags_from_file_attributes, EngineChoice, PathClass, FILE_ATTRIBUTE_ARCHIVE,
    FILE_ATTRIBUTE_COMPRESSED, FILE_ATTRIBUTE_DIRECTORY, FILE_ATTRIBUTE_ENCRYPTED,
    FILE_ATTRIBUTE_HIDDEN, FILE_ATTRIBUTE_NOT_CONTENT_INDEXED, FILE_ATTRIBUTE_OFFLINE,
    FILE_ATTRIBUTE_READONLY, FILE_ATTRIBUTE_REPARSE_POINT, FILE_ATTRIBUTE_SPARSE_FILE,
    FILE_ATTRIBUTE_SYSTEM, FILE_ATTRIBUTE_TEMPORARY,
};
use rss::scan::{plan_engine, select_engine};


#[test]
fn maps_all_attribute_bits() {
    let flags = node_flags_from_file_attributes(
        FILE_ATTRIBUTE_READONLY
            | FILE_ATTRIBUTE_HIDDEN
            | FILE_ATTRIBUTE_SYSTEM
            | FILE_ATTRIBUTE_ARCHIVE
            | FILE_ATTRIBUTE_TEMPORARY
            | FILE_ATTRIBUTE_SPARSE_FILE
            | FILE_ATTRIBUTE_REPARSE_POINT
            | FILE_ATTRIBUTE_COMPRESSED
            | FILE_ATTRIBUTE_OFFLINE
            | FILE_ATTRIBUTE_NOT_CONTENT_INDEXED
            | FILE_ATTRIBUTE_ENCRYPTED,
    );
    for f in [
        NodeFlags(NodeFlags::READONLY),
        NodeFlags(NodeFlags::HIDDEN),
        NodeFlags(NodeFlags::SYSTEM),
        NodeFlags(NodeFlags::ARCHIVE),
        NodeFlags(NodeFlags::TEMPORARY),
        NodeFlags(NodeFlags::SPARSE),
        NodeFlags(NodeFlags::REPARSE_POINT),
        NodeFlags(NodeFlags::COMPRESSED),
        NodeFlags(NodeFlags::OFFLINE),
        NodeFlags(NodeFlags::NOT_INDEXED),
        NodeFlags(NodeFlags::ENCRYPTED),
    ] {
        assert!(flags.contains(f), "missing {f:?}");
    }
    assert!(is_directory(FILE_ATTRIBUTE_DIRECTORY));
    assert!(!is_directory(FILE_ATTRIBUTE_ARCHIVE));
    assert!(is_reparse_point(
        FILE_ATTRIBUTE_REPARSE_POINT | FILE_ATTRIBUTE_DIRECTORY
    ));
}

#[test]
fn empty_attributes_map_to_no_flags() {
    let flags = node_flags_from_file_attributes(0);
    assert_eq!(flags, NodeFlags::default());
}

#[test]
fn classifies_paths() {
    assert_eq!(classify_path(r"C:\"), PathClass::Drive(b'C'));
    assert_eq!(classify_path(r"c:\Users\me"), PathClass::Drive(b'C'));
    assert_eq!(classify_path("D:/data"), PathClass::Drive(b'D'));
    assert_eq!(classify_path(r"\\?\E:\long\path"), PathClass::Drive(b'E'));
    assert_eq!(classify_path(r"\\server\share"), PathClass::Unc);
    assert_eq!(classify_path("//server/share"), PathClass::Unc);
    assert_eq!(classify_path(r"\\?\UNC\server\share"), PathClass::Unc);
    assert_eq!(classify_path(r"\\.\C:"), PathClass::Unsupported);
    assert_eq!(classify_path("relative/path"), PathClass::Unsupported);
    assert_eq!(classify_path(""), PathClass::Unsupported);
}

#[test]
fn extracts_drive_suffix() {
    assert_eq!(drive_suffix(r"C:\Users\me").as_deref(), Some(r"Users\me"));
    assert_eq!(drive_suffix("C:/Users/me/").as_deref(), Some(r"Users\me"));
    assert_eq!(drive_suffix(r"C:\").as_deref(), Some(""));
    assert_eq!(drive_suffix("C:").as_deref(), Some(""));
    assert_eq!(drive_suffix(r"\\?\D:\x").as_deref(), Some("x"));
    assert_eq!(drive_suffix(r"\\server\share"), None);
}

#[test]
fn decides_engine_per_fallback_chain() {
    // NTFS + elevated → MFT.
    let plan = decide_engine(PathClass::Drive(b'C'), Some("NTFS"), true);
    assert_eq!(plan.choice, EngineChoice::Mft);
    assert!(!plan.mft_requires_elevation);
    // NTFS, not elevated → Walk + rescan-as-admin signal.
    let plan = decide_engine(PathClass::Drive(b'C'), Some("NTFS"), false);
    assert_eq!(plan.choice, EngineChoice::Walk);
    assert!(plan.mft_requires_elevation);
    // Non-NTFS volumes → Walk, no signal.
    for fs in ["FAT32", "exFAT", "ReFS"] {
        let plan = decide_engine(PathClass::Drive(b'D'), Some(fs), true);
        assert_eq!(plan.choice, EngineChoice::Walk, "{fs}");
        assert!(!plan.mft_requires_elevation, "{fs}");
    }
    // UNC and unsupported paths → Walk.
    for class in [PathClass::Unc, PathClass::Unsupported] {
        let plan = decide_engine(class, None, false);
        assert_eq!(plan.choice, EngineChoice::Walk);
        assert!(!plan.mft_requires_elevation);
    }
    // Unknown filesystem (probe failed) → Walk.
    let plan = decide_engine(PathClass::Drive(b'C'), None, false);
    assert_eq!(plan.choice, EngineChoice::Walk);
}

#[test]
fn engines_are_planned_by_path() {
    let plan = plan_engine(r"C:\data", Some("NTFS"), true);
    assert_eq!(plan.choice, EngineChoice::Mft);
    // What is known about a volume counts only for drive paths.
    let plan = plan_engine(r"\\server\share", Some("NTFS"), true);
    assert_eq!(plan.choice, EngineChoice::Walk);
    assert!(!plan.mft_requires_elevation);
    assert_eq!(select_engine("/tmp"), EngineChoice::Walk);
}
