//! Errors in words.
use vstd::prelude::*;
use vstd::string::*;

use crate::export_error::{ExportError, TemplateError};
use crate::scan::ScanError;
use crate::snapshot_format::{
    SnapshotError, MAX_DEPTH, MAX_PAYLOAD_LEN, MAX_ZOOM_COMPONENTS,
};
use crate::template_grammar::MAX_IF_DEPTH;
use crate::text;

verus! {

/// A hexadecimal digit.
pub open spec fn hex_digit(n: int) -> char {
    if n < 10 {
        (48 + n) as char
    } else {
        (87 + n) as char
    }
}

/// The last digits of a number in hexadecimal, as many as the width.
pub open spec fn hex(n: nat, width: nat) -> Seq<char>
    decreases width,
{
    if width == 0 {
        Seq::empty()
    } else {
        hex(n / 16, (width - 1) as nat).push(hex_digit((n % 16) as int))
    }
}

/// Appends the last digits of a number in hexadecimal, as many as the width.
fn push_hex(s: &mut String, n: u64, width: usize)
    ensures
        final(s)@ == old(s)@ + hex(n as nat, width as nat),
    decreases width,
{
    let ghost before = s@;
    if width > 0 {
        push_hex(s, n / 16, width - 1);
        let d: u8 = (n % 16) as u8;
        let code: u8 = if d < 10 {
            48 + d
        } else {
            87 + d
        };
        s.push(code as char);
    }
    proof {
        assert(s@ =~= before + hex(n as nat, width as nat));
    }
}

/// A range of bytes in words.
pub open spec fn range(span: std::ops::Range<usize>) -> Seq<char> {
    text::dec(span.start as nat) + ".."@ + text::dec(span.end as nat)
}

fn push_range(s: &mut String, span: &std::ops::Range<usize>)
    ensures
        final(s)@ == old(s)@ + range(*span),
{
    let ghost before = s@;
    text::push_decimal(s, span.start as u64);
    s.append("..");
    text::push_decimal(s, span.end as u64);
    proof {
        assert(s@ =~= before + range(*span));
    }
}

/// Why a scan failed, in words.
pub open spec fn scan_text(e: ScanError) -> Seq<char> {
    match e {
        ScanError::RootNotFound(path) => "scan root not found: "@ + path@,
        ScanError::RootUnreadable { path, message } => "scan root is unreadable: "@ + path@ + ": "@
            + message@,
        ScanError::NotALocalVolume(path) => "not on a local volume: "@ + path@,
        ScanError::VolumeError(message) => message@,
    }
}

impl ScanError {
    /// The error in words.
    pub fn describe(&self) -> (s: String)
        ensures
            s@ == scan_text(*self),
    {
        let mut s = String::new();
        match self {
            ScanError::RootNotFound(path) => {
                s.append("scan root not found: ");
                s.append(path.as_str());
            },
            ScanError::RootUnreadable { path, message } => {
                s.append("scan root is unreadable: ");
                s.append(path.as_str());
                s.append(": ");
                s.append(message.as_str());
            },
            ScanError::NotALocalVolume(path) => {
                s.append("not on a local volume: ");
                s.append(path.as_str());
            },
            ScanError::VolumeError(message) => {
                s.append(message.as_str());
            },
        }
        proof {
            assert(s@ =~= scan_text(*self));
        }
        s
    }
}

/// Why bytes are no snapshot, in words.
pub open spec fn snapshot_text(e: SnapshotError) -> Seq<char> {
    match e {
        SnapshotError::TooShort { len, need } => "snapshot too short: "@ + text::dec(len as nat)
            + " bytes, need at least "@ + text::dec(need as nat),
        SnapshotError::BadMagic => "bad magic bytes (not an .rssnap file)"@,
        SnapshotError::UnsupportedVersion(v) => "unsupported snapshot format version "@
            + text::dec(v as nat),
        SnapshotError::BadHeaderLength(n) => "invalid header length "@ + text::dec(n as nat),
        SnapshotError::UnsupportedFlags(f) => "unsupported header flags 0x"@ + hex(f as nat, 8),
        SnapshotError::HeaderCrcMismatch { stored, computed } => "header CRC32 mismatch: stored 0x"@
            + hex(stored as nat, 8) + ", computed 0x"@ + hex(computed as nat, 8),
        SnapshotError::PayloadTooLarge(n) => "payload length "@ + text::dec(n as nat)
            + " exceeds cap of "@ + text::dec(MAX_PAYLOAD_LEN as nat) + " bytes"@,
        SnapshotError::PayloadLengthMismatch { announced, actual } => "payload length mismatch: header announces "@
            + text::dec(announced as nat) + " bytes, file holds "@ + text::dec(actual as nat),
        SnapshotError::PayloadCrcMismatch { stored, computed } => "payload CRC64 mismatch: stored 0x"@
            + hex(stored as nat, 16) + ", computed 0x"@ + hex(computed as nat, 16),
        SnapshotError::MalformedVarint(at) => "malformed varint at payload offset "@
            + text::dec(at as nat),
        SnapshotError::UnknownRecordType { offset, tag } => "unknown record type "@
            + text::dec(tag as nat) + " at payload offset "@ + text::dec(offset as nat),
        SnapshotError::RecordTooLarge { offset, len, cap } => "record at payload offset "@
            + text::dec(offset as nat) + " is "@ + text::dec(len as nat)
            + " bytes, exceeding the "@ + text::dec(cap as nat) + "-byte cap"@,
        SnapshotError::RecordOverrun { offset, len, remaining } => "record at payload offset "@
            + text::dec(offset as nat) + " announces "@ + text::dec(len as nat) + " bytes, only "@
            + text::dec(remaining as nat) + " remain"@,
        SnapshotError::TruncatedField { record, offset, field } => record@
            + " record at payload offset "@ + text::dec(offset as nat)
            + ": truncated while reading "@ + field@,
        SnapshotError::TrailingBytes { record, offset, len } => record@
            + " record at payload offset "@ + text::dec(offset as nat) + " has "@
            + text::dec(len as nat) + " trailing bytes"@,
        SnapshotError::StringTooLong { field, len, cap } => "string field "@ + field@
            + " announces "@ + text::dec(len as nat) + " bytes, exceeding the "@
            + text::dec(cap as nat) + "-byte cap"@,
        SnapshotError::InvalidUtf8 { offset, field } => "string field "@ + field@
            + " in record at payload offset "@ + text::dec(offset as nat) + " is not valid UTF-8"@,
        SnapshotError::InvalidNodeKind { offset, kind } => "node record at payload offset "@
            + text::dec(offset as nat) + ": invalid node kind "@ + text::dec(kind as nat),
        SnapshotError::InvalidTag { offset, tag } => "node record at payload offset "@
            + text::dec(offset as nat) + ": invalid tag "@ + text::dec(tag as nat),
        SnapshotError::DepthCapExceeded => "node tree exceeds the depth cap of "@
            + text::dec(MAX_DEPTH as nat),
        SnapshotError::NodeCountExceeded { cap } => "node count exceeds the cap of "@
            + text::dec(cap as nat),
        SnapshotError::MalformedNodeStream(what) => "malformed node stream: "@ + what@,
        SnapshotError::DuplicateRecord(record) => "duplicate "@ + record@ + " record"@,
        SnapshotError::MissingRecord(record) => "missing or out-of-order record: expected "@
            + record@,
        SnapshotError::ZoomTooDeep(n) => "zoom path announces "@ + text::dec(n as nat)
            + " components, exceeding the cap of "@ + text::dec(MAX_ZOOM_COMPONENTS as nat),
        SnapshotError::EmptyTree => "cannot encode a snapshot of a tree without a root"@,
    }
}

impl SnapshotError {
    /// The error in words.
    pub fn describe(&self) -> (s: String)
        ensures
            s@ == snapshot_text(*self),
    {
        let mut s = String::new();
        match self {
            SnapshotError::TooShort { len, need } => {
                s.append("snapshot too short: ");
                text::push_decimal(&mut s, *len as u64);
                s.append(" bytes, need at least ");
                text::push_decimal(&mut s, *need as u64);
            },
            SnapshotError::BadMagic => {
                s.append("bad magic bytes (not an .rssnap file)");
            },
            SnapshotError::UnsupportedVersion(v) => {
                s.append("unsupported snapshot format version ");
                text::push_decimal(&mut s, *v as u64);
            },
            SnapshotError::BadHeaderLength(n) => {
                s.append("invalid header length ");
                text::push_decimal(&mut s, *n as u64);
            },
            SnapshotError::UnsupportedFlags(f) => {
                s.append("unsupported header flags 0x");
                push_hex(&mut s, *f as u64, 8);
            },
            SnapshotError::HeaderCrcMismatch { stored, computed } => {
                s.append("header CRC32 mismatch: stored 0x");
                push_hex(&mut s, *stored as u64, 8);
                s.append(", computed 0x");
                push_hex(&mut s, *computed as u64, 8);
            },
            SnapshotError::PayloadTooLarge(n) => {
                s.append("payload length ");
                text::push_decimal(&mut s, *n as u64);
                s.append(" exceeds cap of ");
                text::push_decimal(&mut s, MAX_PAYLOAD_LEN as u64);
                s.append(" bytes");
            },
            SnapshotError::PayloadLengthMismatch { announced, actual } => {
                s.append("payload length mismatch: header announces ");
                text::push_decimal(&mut s, *announced as u64);
                s.append(" bytes, file holds ");
                text::push_decimal(&mut s, *actual as u64);
            },
            SnapshotError::PayloadCrcMismatch { stored, computed } => {
                s.append("payload CRC64 mismatch: stored 0x");
                push_hex(&mut s, *stored, 16);
                s.append(", computed 0x");
                push_hex(&mut s, *computed, 16);
            },
            SnapshotError::MalformedVarint(at) => {
                s.append("malformed varint at payload offset ");
                text::push_decimal(&mut s, *at as u64);
            },
            SnapshotError::UnknownRecordType { offset, tag } => {
                s.append("unknown record type ");
                text::push_decimal(&mut s, *tag as u64);
                s.append(" at payload offset ");
                text::push_decimal(&mut s, *offset as u64);
            },
            SnapshotError::RecordTooLarge { offset, len, cap } => {
                s.append("record at payload offset ");
                text::push_decimal(&mut s, *offset as u64);
                s.append(" is ");
                text::push_decimal(&mut s, *len as u64);
                s.append(" bytes, exceeding the ");
                text::push_decimal(&mut s, *cap as u64);
                s.append("-byte cap");
            },
            SnapshotError::RecordOverrun { offset, len, remaining } => {
                s.append("record at payload offset ");
                text::push_decimal(&mut s, *offset as u64);
                s.append(" announces ");
                text::push_decimal(&mut s, *len as u64);
                s.append(" bytes, only ");
                text::push_decimal(&mut s, *remaining as u64);
                s.append(" remain");
            },
            SnapshotError::TruncatedField { record, offset, field } => {
                s.append(record);
                s.append(" record at payload offset ");
                text::push_decimal(&mut s, *offset as u64);
                s.append(": truncated while reading ");
                s.append(field);
            },
            SnapshotError::TrailingBytes { record, offset, len } => {
                s.append(record);
                s.append(" record at payload offset ");
                text::push_decimal(&mut s, *offset as u64);
                s.append(" has ");
                text::push_decimal(&mut s, *len as u64);
                s.append(" trailing bytes");
            },
            SnapshotError::StringTooLong { field, len, cap } => {
                s.append("string field ");
                s.append(field);
                s.append(" announces ");
                text::push_decimal(&mut s, *len as u64);
                s.append(" bytes, exceeding the ");
                text::push_decimal(&mut s, *cap as u64);
                s.append("-byte cap");
            },
            SnapshotError::InvalidUtf8 { offset, field } => {
                s.append("string field ");
                s.append(field);
                s.append(" in record at payload offset ");
                text::push_decimal(&mut s, *offset as u64);
                s.append(" is not valid UTF-8");
            },
            SnapshotError::InvalidNodeKind { offset, kind } => {
                s.append("node record at payload offset ");
                text::push_decimal(&mut s, *offset as u64);
                s.append(": invalid node kind ");
                text::push_decimal(&mut s, *kind as u64);
            },
            SnapshotError::InvalidTag { offset, tag } => {
                s.append("node record at payload offset ");
                text::push_decimal(&mut s, *offset as u64);
                s.append(": invalid tag ");
                text::push_decimal(&mut s, *tag as u64);
            },
            SnapshotError::DepthCapExceeded => {
                s.append("node tree exceeds the depth cap of ");
                text::push_decimal(&mut s, MAX_DEPTH as u64);
            },
            SnapshotError::NodeCountExceeded { cap } => {
                s.append("node count exceeds the cap of ");
                text::push_decimal(&mut s, *cap as u64);
            },
            SnapshotError::MalformedNodeStream(what) => {
                s.append("malformed node stream: ");
                s.append(what);
            },
            SnapshotError::DuplicateRecord(record) => {
                s.append("duplicate ");
                s.append(record);
                s.append(" record");
            },
            SnapshotError::MissingRecord(record) => {
                s.append("missing or out-of-order record: expected ");
                s.append(record);
            },
            SnapshotError::ZoomTooDeep(n) => {
                s.append("zoom path announces ");
                text::push_decimal(&mut s, *n as u64);
                s.append(" components, exceeding the cap of ");
                text::push_decimal(&mut s, MAX_ZOOM_COMPONENTS as u64);
            },
            SnapshotError::EmptyTree => {
                s.append("cannot encode a snapshot of a tree without a root");
            },
        }
        proof {
            assert(s@ =~= snapshot_text(*self));
        }
        s
    }
}

/// What is wrong with a template, in words.
pub open spec fn template_text(e: TemplateError) -> Seq<char> {
    match e {
        TemplateError::UnknownPlaceholder { name, section, span } => "unknown placeholder <%"@
            + name@ + "%> in "@ + section@ + " section at bytes "@ + range(span),
        TemplateError::UnterminatedPlaceholder { section, span } => "unterminated placeholder in "@
            + section@ + " section at bytes "@ + range(span),
        TemplateError::UnknownCommand { name, section, span } => "unknown command {"@ + name@
            + "} in "@ + section@ + " section at bytes "@ + range(span),
        TemplateError::InvalidCommandArg { command, reason, section, span } => "invalid argument for {"@
            + command@ + "} in "@ + section@ + " section at bytes "@ + range(span) + ": "@
            + reason@,
        TemplateError::UnsupportedCommand { name, section, span } => "unsupported command {"@
            + name@ + "} in "@ + section@ + " section at bytes "@ + range(span)
            + " (no code execution)"@,
        TemplateError::UnterminatedCommand { section, span } => "unterminated command in "@
            + section@ + " section at bytes "@ + range(span),
        TemplateError::UnmatchedConditional { command, section, span } => "unmatched {"@ + command@
            + "} in "@ + section@ + " section at bytes "@ + range(span),
        TemplateError::MissingEndif { section, span } => "{if …} in "@ + section@
            + " section at bytes "@ + range(span) + " has no matching {endif}"@,
        TemplateError::ConditionalNestingTooDeep { section } => "{if} blocks nested deeper than "@
            + text::dec(MAX_IF_DEPTH as nat) + " in "@ + section@ + " section"@,
        TemplateError::InvalidCondition { reason, section, span } => "invalid {if} condition in "@
            + section@ + " section at bytes "@ + range(span) + ": "@ + reason@,
        TemplateError::DanglingPad { command, section, span } => "dangling {"@ + command@
            + "} in "@ + section@ + " section at bytes "@ + range(span)
            + " (no placeholder follows)"@,
    }
}

impl TemplateError {
    /// The error in words.
    pub fn describe(&self) -> (s: String)
        ensures
            s@ == template_text(*self),
    {
        let mut s = String::new();
        match self {
            TemplateError::UnknownPlaceholder { name, section, span } => {
                s.append("unknown placeholder <%");
                s.append(name.as_str());
                s.append("%> in ");
                s.append(section);
                s.append(" section at bytes ");
                push_range(&mut s, span);
            },
            TemplateError::UnterminatedPlaceholder { section, span } => {
                s.append("unterminated placeholder in ");
                s.append(section);
                s.append(" section at bytes ");
                push_range(&mut s, span);
            },
            TemplateError::UnknownCommand { name, section, span } => {
                s.append("unknown command {");
                s.append(name.as_str());
                s.append("} in ");
                s.append(section);
                s.append(" section at bytes ");
                push_range(&mut s, span);
            },
            TemplateError::InvalidCommandArg { command, reason, section, span } => {
                s.append("invalid argument for {");
                s.append(command);
                s.append("} in ");
                s.append(section);
                s.append(" section at bytes ");
                push_range(&mut s, span);
                s.append(": ");
                s.append(reason.as_str());
            },
            TemplateError::UnsupportedCommand { name, section, span } => {
                s.append("unsupported command {");
                s.append(name.as_str());
                s.append("} in ");
                s.append(section);
                s.append(" section at bytes ");
                push_range(&mut s, span);
                s.append(" (no code execution)");
            },
            TemplateError::UnterminatedCommand { section, span } => {
                s.append("unterminated command in ");
                s.append(section);
                s.append(" section at bytes ");
                push_range(&mut s, span);
            },
            TemplateError::UnmatchedConditional { command, section, span } => {
                s.append("unmatched {");
                s.append(command);
                s.append("} in ");
                s.append(section);
                s.append(" section at bytes ");
                push_range(&mut s, span);
            },
            TemplateError::MissingEndif { section, span } => {
                s.append("{if …} in ");
                s.append(section);
                s.append(" section at bytes ");
                push_range(&mut s, span);
                s.append(" has no matching {endif}");
            },
            TemplateError::ConditionalNestingTooDeep { section } => {
                s.append("{if} blocks nested deeper than ");
                text::push_decimal(&mut s, MAX_IF_DEPTH as u64);
                s.append(" in ");
                s.append(section);
                s.append(" section");
            },
            TemplateError::InvalidCondition { reason, section, span } => {
                s.append("invalid {if} condition in ");
                s.append(section);
                s.append(" section at bytes ");
                push_range(&mut s, span);
                s.append(": ");
                s.append(reason.as_str());
            },
            TemplateError::DanglingPad { command, section, span } => {
                s.append("dangling {");
                s.append(command);
                s.append("} in ");
                s.append(section);
                s.append(" section at bytes ");
                push_range(&mut s, span);
                s.append(" (no placeholder follows)");
            },
        }
        proof {
            assert(s@ =~= template_text(*self));
        }
        s
    }
}

/// Why an export failed, in words.
pub open spec fn export_text(e: ExportError) -> Seq<char> {
    match e {
        ExportError::InvalidRoot(id) => "invalid root node id "@ + text::dec(id as nat),
        ExportError::Template(t) => template_text(t),
    }
}

impl ExportError {
    /// The error in words.
    pub fn describe(&self) -> (s: String)
        ensures
            s@ == export_text(*self),
    {
        let mut s = String::new();
        match self {
            ExportError::InvalidRoot(id) => {
                s.append("invalid root node id ");
                text::push_decimal(&mut s, *id as u64);
            },
            ExportError::Template(t) => {
                return t.describe();
            },
        }
        proof {
            assert(s@ =~= export_text(*self));
        }
        s
    }
}

/// Errors of files name the stored value before the computed one, and numbers in
/// hexadecimal with all their digits.
pub proof fn law_checksum_messages(stored: u32, computed: u32, s: u64, c: u64)
    ensures
        snapshot_text(SnapshotError::HeaderCrcMismatch { stored, computed })
            == "header CRC32 mismatch: stored 0x"@ + hex(stored as nat, 8) + ", computed 0x"@ + hex(
            computed as nat,
            8,
        ),
        snapshot_text(SnapshotError::PayloadCrcMismatch { stored: s, computed: c })
            == "payload CRC64 mismatch: stored 0x"@ + hex(s as nat, 16) + ", computed 0x"@ + hex(
            c as nat,
            16,
        ),
        hex(stored as nat, 8).len() == 8,
        hex_digit(0) == '0' && hex_digit(9) == '9' && hex_digit(10) == 'a' && hex_digit(15) == 'f',
{
    lemma_hex_len(stored as nat, 8);
}

proof fn lemma_hex_len(n: nat, width: nat)
    ensures
        hex(n, width).len() == width,
    decreases width,
{
    if width > 0 {
        lemma_hex_len(n / 16, (width - 1) as nat);
    }
}

/// The last digit of a number in hexadecimal is what is left of it by 16.
pub proof fn law_hexadecimal(n: nat, width: nat)
    requires
        width > 0,
    ensures
        hex(n, width) == hex(n / 16, (width - 1) as nat).push(hex_digit((n % 16) as int)),
{
}

/// Errors of scans name what they are about.
pub proof fn law_scan_messages(e: ScanError)
    ensures
        e matches ScanError::RootNotFound(p) ==> scan_text(e) == "scan root not found: "@ + p@,
        e matches ScanError::RootUnreadable { path, message } ==> scan_text(e)
            == "scan root is unreadable: "@ + path@ + ": "@ + message@,
        e matches ScanError::NotALocalVolume(p) ==> scan_text(e) == "not on a local volume: "@ + p@,
        e matches ScanError::VolumeError(m) ==> scan_text(e) == m@,
{
}

} // verus!
