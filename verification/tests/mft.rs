//! Scans of a master file table: gathering records, paths, and what is handed
//! on.
use rss::builder::TreeBuilder;
use rss::mft::{
    alias_step, cancel_check_due, chunk_due, file_meta, scan_root, scan_suffix, take_chunk,
    AliasStep, EmitStep, MftEmission, MftScanner, Openings,
};
use rss::mft_scan::scan_records;
use rss::mft_table::{find_scan_root, path_of, MftTable, PathCache};
use rss::node::{NodeFlags, NodeKind};
use rss::scan::{ScanError, ScanEvent, ScanSummary, Upsert};
use rss::usn::{UsnRecord, V2_HEADER_SIZE};
use rss::walk::RootProbe;

const DIR: u32 = 0x10;
const FILE: u32 = 0x20;

fn record(frn: u128, parent: u128, attrs: u32, name: &str) -> UsnRecord {
    UsnRecord {
        frn,
        parent_frn: parent,
        frn_bytes: frn.to_le_bytes(),
        timestamp: 77,
        file_attributes: attrs,
        name: name.to_string(),
        major_version: 2,
    }
}

/// A volume without a record of its root (5), which holds `a` (6, directory)
/// with `f.bin` (7), and `g.bin` (8).
fn rootless() -> MftTable {
    let mut table = MftTable::new();
    table.gather_all(vec![
        record(6, 5, DIR, "a"),
        record(7, 6, FILE, "f.bin"),
        record(8, 5, FILE, "g.bin"),
    ]);
    table
}

/// The same volume with a record of its root, which is its own parent.
fn volume() -> MftTable {
    let mut table = MftTable::new();
    table.gather_all(vec![
        record(5, 5, DIR, "."),
        record(6, 5, DIR, "a"),
        record(7, 6, FILE, "f.bin"),
        record(8, 5, FILE, "g.bin"),
    ]);
    table
}

fn emit_all(table: &MftTable, root: usize, text: &str, openings: &Openings) -> Vec<Upsert> {
    let mut scanner = MftScanner::new();
    let mut summary = ScanSummary::default();
    let mut emission = MftEmission::new(table, root, text);
    let mut out = Vec::new();
    loop {
        match emission.step(table, openings, &mut scanner, &mut summary, false) {
            EmitStep::Emit(u, _) => out.push(u),
            EmitStep::Done => return out,
            EmitStep::Cancelled => panic!("nobody cancelled"),
        }
    }
}

/// The nodes that a scan told of.
fn upserts(told: Vec<ScanEvent>) -> Vec<Upsert> {
    told.into_iter()
        .filter_map(|event| match event {
            ScanEvent::Upsert(u) => Some(u),
            ScanEvent::Error(_) => None,
        })
        .collect()
}

#[test]
fn paths_are_put_together_from_parents() {
    let table = rootless();
    let mut cache = PathCache::new(&table);
    assert_eq!(path_of(&table, &mut cache, 8).as_deref(), Some("g.bin"));
    assert_eq!(path_of(&table, &mut cache, 7).as_deref(), Some(r"a\f.bin"));
    // Once more, from what was remembered.
    assert_eq!(path_of(&table, &mut cache, 7).as_deref(), Some(r"a\f.bin"));
    assert_eq!(path_of(&table, &mut cache, 99), None);
    // A root with a record of its own is part of the paths.
    let table = volume();
    let mut cache = PathCache::new(&table);
    assert_eq!(
        path_of(&table, &mut cache, 7).as_deref(),
        Some(r".\a\f.bin")
    );
}

#[test]
fn circles_have_no_path() {
    let mut table = MftTable::new();
    table.gather_all(vec![
        record(5, 5, DIR, "."),
        record(10, 11, DIR, "x"),
        record(11, 10, DIR, "y"),
    ]);
    let mut cache = PathCache::new(&table);
    assert_eq!(path_of(&table, &mut cache, 10), None);
    assert_eq!(path_of(&table, &mut cache, 11), None);
}

#[test]
fn the_first_record_of_a_number_counts() {
    let mut table = volume();
    table.gather(record(7, 5, FILE, "alias.bin"));
    assert_eq!(table.records().len(), 4);
    assert_eq!(table.duplicates().len(), 1);
    assert_eq!(table.find(7), Some(2));
    assert_eq!(table.find(70), None);
    // Records without names are passed over.
    let mut nameless = record(20, 5, FILE, "");
    nameless.major_version = 4;
    table.gather(nameless);
    assert_eq!(table.records().len(), 4);
}

#[test]
fn scans_start_at_the_wanted_record() {
    let table = rootless();
    let mut cache = PathCache::new(&table);
    assert_eq!(scan_suffix(r"C:\a"), "a");
    assert_eq!(find_scan_root(&table, &mut cache, "A"), Some(0));
    assert_eq!(find_scan_root(&table, &mut cache, "b"), None);
    let full = volume();
    let mut full_cache = PathCache::new(&full);
    assert_eq!(find_scan_root(&full, &mut full_cache, ""), Some(0));
    assert_eq!(
        scan_root(&table, &mut cache, r"C:\b").err(),
        Some(ScanError::RootNotFound(r"C:\b".to_string()))
    );
}

#[test]
fn a_whole_subtree_is_handed_on_once() {
    let table = volume();
    let openings = Openings::new(&table);
    let all = emit_all(&table, 0, r"C:\", &openings);
    let mut paths: Vec<&str> = all.iter().map(|u| u.path.as_str()).collect();
    assert_eq!(all[0].parent_path, None);
    assert_eq!(all[0].path, r"C:\");
    paths.sort_unstable();
    assert_eq!(paths, [r"C:\", r"C:\a", r"C:\a\f.bin", r"C:\g.bin"]);
    let part = emit_all(&table, 1, r"C:\a", &openings);
    assert_eq!(part.len(), 2);
    assert_eq!(part[1].path, r"C:\a\f.bin");
    assert_eq!(part[1].parent_path.as_deref(), Some(r"C:\a"));
}

#[test]
fn opened_files_have_sizes() {
    let table = volume();
    let mut openings = Openings::new(&table);
    let meta = file_meta((0, 1000), 4096, 1, (0, 1), (0, 2), (0, 3));
    openings.note(2, Ok(meta));
    openings.note(3, Err("locked".to_string()));
    let all = emit_all(&table, 0, r"C:\", &openings);
    let f = all.iter().find(|u| u.params.name == "f.bin").unwrap();
    assert_eq!(f.params.logical_size, 1000);
    assert_eq!(f.params.allocated_size, 4096);
    assert_eq!(f.params.modified, 3);
    assert_eq!(f.params.kind, NodeKind::File);
}

#[test]
fn further_names_are_aliases() {
    let mut table = rootless();
    table.gather(record(7, 6, FILE, "alias.bin"));
    let mut cache = PathCache::new(&table);
    let mut summary = ScanSummary::default();
    let mut scanner = MftScanner::new();
    match alias_step(
        &table,
        &mut cache,
        &mut summary,
        &mut scanner,
        0,
        r"C:\",
        false,
    ) {
        AliasStep::Emit(u) => {
            assert_eq!(u.path, r"C:\a\alias.bin");
            assert_eq!(u.params.logical_size, 0);
            assert!(u
                .params
                .flags
                .contains(NodeFlags(NodeFlags::HARDLINK_ALIAS)));
        }
        _ => panic!("an alias inside the scan"),
    }
    assert_eq!(summary.files, 1);
}

#[test]
fn buffers_feed_the_table() {
    let mut table = MftTable::new();
    let mut summary = ScanSummary::default();
    let mut chunk = Vec::new();
    chunk.extend_from_slice(&900u64.to_le_bytes());
    let name: Vec<u16> = "n.bin".encode_utf16().collect();
    let len = (V2_HEADER_SIZE + name.len() * 2) as u32;
    chunk.extend_from_slice(&len.to_le_bytes());
    chunk.extend_from_slice(&2u16.to_le_bytes());
    chunk.extend_from_slice(&0u16.to_le_bytes());
    chunk.extend_from_slice(&6u64.to_le_bytes());
    chunk.extend_from_slice(&5u64.to_le_bytes());
    chunk.extend_from_slice(&[0u8; 28]);
    chunk.extend_from_slice(&FILE.to_le_bytes());
    chunk.extend_from_slice(&((name.len() * 2) as u16).to_le_bytes());
    chunk.extend_from_slice(&(V2_HEADER_SIZE as u16).to_le_bytes());
    for unit in name {
        chunk.extend_from_slice(&unit.to_le_bytes());
    }
    let taken = take_chunk(&mut table, &mut summary, &chunk, 0).ok().unwrap();
    assert_eq!(taken.next, Some(900));
    assert_eq!(taken.problem, None);
    assert_eq!(table.records().len(), 1);
    assert_eq!(table.records()[0].name, "n.bin");
    // An empty buffer ends the table.
    let taken = take_chunk(&mut table, &mut summary, &[], 900).ok().unwrap();
    assert_eq!(taken.next, None);
    assert_eq!(taken.problem, None);
    // One too short for its head is an error.
    match take_chunk(&mut table, &mut summary, &[1, 2], 900) {
        Err(ScanError::VolumeError(m)) => assert!(m.starts_with("USN record parse: ")),
        _ => panic!("a broken buffer"),
    }
}

#[test]
fn scans_need_a_drive() {
    let mut scanner = MftScanner::new();
    assert_eq!(scanner.start(r"d:\x", RootProbe::Found).ok(), Some(b'D'));
    assert_eq!(
        scanner.start("/home", RootProbe::Found).err(),
        Some(ScanError::NotALocalVolume("/home".to_string()))
    );
    assert_eq!(
        scanner.start(r"d:\x", RootProbe::NotFound).err(),
        Some(ScanError::RootNotFound(r"d:\x".to_string()))
    );
}

#[test]
fn reports_and_checks_come_at_intervals() {
    assert!(chunk_due(0));
    assert!(!chunk_due(1));
    assert!(chunk_due(16384));
    assert!(cancel_check_due(512));
    assert!(!cancel_check_due(511));
}

#[test]
fn a_whole_table_is_scanned() {
    let mut table = rootless();
    // A further hard link of `f.bin`, and one outside the scan.
    table.gather(record(7, 6, FILE, "alias.bin"));
    table.gather(record(7, 5, FILE, "outside.bin"));
    let mut openings = Openings::new(&table);
    openings.note(
        1,
        Ok(file_meta((0, 700), 1024, 2, (0, 1), (0, 2), (0, 3))),
    );
    let mut scanner = MftScanner::new();
    let mut summary = ScanSummary::default();
    let found = scan_records(
        &table,
        &openings,
        &mut scanner,
        &mut summary,
        r"C:\a",
        false,
    )
    .unwrap();
    let found = upserts(found);
    let paths: Vec<&str> = found.iter().map(|u| u.path.as_str()).collect();
    assert_eq!(paths, [r"C:\a", r"C:\a\f.bin", r"C:\a\alias.bin"]);
    assert_eq!(found[2].parent_path.as_deref(), Some(r"C:\a"));
    assert_eq!(found[2].params.logical_size, 0);
    assert_eq!((summary.entries, summary.files, summary.dirs), (3, 2, 1));
    assert_eq!((summary.logical_size, summary.allocated_size), (700, 1024));

    // Every directory comes before what is in it.
    let mut builder = TreeBuilder::new();
    for u in found {
        builder.apply(ScanEvent::Upsert(u));
    }
    assert_eq!(builder.orphans, 0);
    assert_eq!(builder.tree().len(), 3);
}

#[test]
fn scans_of_tables_fail_or_end_early() {
    let table = rootless();
    let openings = Openings::new(&table);
    let mut scanner = MftScanner::new();
    let mut summary = ScanSummary::default();
    let missing = scan_records(
        &table,
        &openings,
        &mut scanner,
        &mut summary,
        r"C:\b",
        false,
    );
    assert_eq!(
        missing.err(),
        Some(ScanError::RootNotFound(r"C:\b".to_string()))
    );
    let stopped = scan_records(
        &table,
        &openings,
        &mut scanner,
        &mut summary,
        r"C:\a",
        true,
    )
    .unwrap();
    assert!(stopped.is_empty());
    assert!(summary.cancelled);
    assert_eq!(summary.entries, 0);
}

#[test]
fn problems_of_tables_are_handed_on() {
    let table = rootless();
    let mut openings = Openings::new(&table);
    openings.note(1, Err("locked".to_string()));
    let mut scanner = MftScanner::new();
    let mut summary = ScanSummary::default();
    let told = scan_records(
        &table,
        &openings,
        &mut scanner,
        &mut summary,
        r"C:\a",
        false,
    )
    .unwrap();
    let mut lines = Vec::new();
    for event in &told {
        match event {
            ScanEvent::Upsert(u) => lines.push(u.path.clone()),
            ScanEvent::Error(p) => lines.push(format!("{:?}: {}", p.path, p.message)),
        }
    }
    assert_eq!(
        lines,
        [
            r"C:\a".to_string(),
            format!("{:?}: OpenFileById failed: locked", Some(r"C:\a\f.bin")),
            r"C:\a\f.bin".to_string(),
        ]
    );
    assert_eq!(summary.errors.len(), 1);

    // A record that cannot be read is counted, and told of without a path.
    let mut table = MftTable::new();
    let mut chunk = 900u64.to_le_bytes().to_vec();
    chunk.extend_from_slice(&60u32.to_le_bytes());
    chunk.extend_from_slice(&9u16.to_le_bytes());
    chunk.extend_from_slice(&[0u8; 54]);
    let taken = take_chunk(&mut table, &mut summary, &chunk, 0).ok().unwrap();
    let problem = taken.problem.unwrap();
    assert_eq!(problem.path, None);
    assert_eq!(problem.message, "skipped 1 unparseable USN record(s)");
    assert_eq!(summary.errors.len(), 2);
}
