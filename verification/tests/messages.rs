//! Errors in words.
use rss::export_error::{ExportError, TemplateError};
use rss::scan::ScanError;
use rss::snapshot_format::SnapshotError;

#[test]
fn snapshot_errors_in_words() {
    let cases = [
        (
            SnapshotError::TooShort { len: 3, need: 36 },
            "snapshot too short: 3 bytes, need at least 36",
        ),
        (
            SnapshotError::BadMagic,
            "bad magic bytes (not an .rssnap file)",
        ),
        (
            SnapshotError::UnsupportedFlags(0x1f),
            "unsupported header flags 0x0000001f",
        ),
        (
            SnapshotError::HeaderCrcMismatch {
                stored: 0xdead_beef,
                computed: 1,
            },
            "header CRC32 mismatch: stored 0xdeadbeef, computed 0x00000001",
        ),
        (
            SnapshotError::PayloadTooLarge(7),
            "payload length 7 exceeds cap of 1073741824 bytes",
        ),
        (
            SnapshotError::PayloadCrcMismatch {
                stored: 0x0123_4567_89ab_cdef,
                computed: 0,
            },
            "payload CRC64 mismatch: stored 0x0123456789abcdef, computed 0x0000000000000000",
        ),
        (
            SnapshotError::TruncatedField {
                record: "node",
                offset: 12,
                field: "name",
            },
            "node record at payload offset 12: truncated while reading name",
        ),
        (
            SnapshotError::DepthCapExceeded,
            "node tree exceeds the depth cap of 512",
        ),
        (
            SnapshotError::ZoomTooDeep(5000),
            "zoom path announces 5000 components, exceeding the cap of 4096",
        ),
        (
            SnapshotError::EmptyTree,
            "cannot encode a snapshot of a tree without a root",
        ),
    ];
    for (error, words) in cases {
        assert_eq!(error.describe(), words);
    }
}

#[test]
fn template_errors_in_words() {
    let e = TemplateError::UnknownPlaceholder {
        name: "bogus".to_string(),
        section: "detail",
        span: 2..11,
    };
    assert_eq!(
        e.describe(),
        "unknown placeholder <%bogus%> in detail section at bytes 2..11"
    );
    let e = TemplateError::InvalidCommandArg {
        command: "leftpad",
        reason: "no width".to_string(),
        section: "header",
        span: 0..9,
    };
    assert_eq!(
        ExportError::Template(e).describe(),
        "invalid argument for {leftpad} in header section at bytes 0..9: no width"
    );
    let e = TemplateError::MissingEndif {
        section: "footer",
        span: 1..5,
    };
    assert_eq!(
        e.describe(),
        "{if …} in footer section at bytes 1..5 has no matching {endif}"
    );
    assert_eq!(
        ExportError::InvalidRoot(999).describe(),
        "invalid root node id 999"
    );
}

#[test]
fn scan_errors_in_words() {
    assert_eq!(
        ScanError::VolumeError("busy".to_string()).describe(),
        "busy"
    );
    assert_eq!(
        ScanError::NotALocalVolume("/x".to_string()).describe(),
        "not on a local volume: /x"
    );
}
