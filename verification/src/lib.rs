//! Disk-space analysis: the scanned tree, filters over it, exports of it.

pub mod app_shell;
pub mod builder;
pub mod bytes;
pub mod call_laws;
pub mod cli;
pub mod cli_meta;
pub mod config;
pub mod controls;
pub mod defaults;
pub mod diskspace;
pub mod entry;
pub mod export;
pub mod export_error;
pub mod export_laws;
pub mod fileops;
pub mod filter;
pub mod filter_ast;
pub mod filter_grammar;
pub mod filter_laws;
pub mod filter_parse;
pub mod filter_texts;
pub mod fuzzing;
pub mod glob;
pub mod hashing;
pub mod messages;
pub mod mft;
pub mod mft_scan;
pub mod mft_table;
pub mod model;
pub mod node;
pub mod ntfs;
pub mod paths;
pub mod scan;
pub mod scan_tree;
pub mod session_call_laws;
pub mod shell_call_laws;
pub mod sizes;
pub mod snapshot;
pub mod snapshot_format;
pub mod snapshot_laws;
pub mod sort;
pub mod template;
pub mod template_grammar;
pub mod template_laws;
pub mod text;
pub mod time;
pub mod toml_values;
pub mod totals;
pub mod tree;
pub mod tree_call_laws;
pub mod treemap;
pub mod usn;
pub mod verdicts;
pub mod view;
pub mod view_call_laws;
pub mod view_export;
pub mod view_laws;
pub mod visit;
pub mod walk;

use vstd::prelude::*;

verus! {

/// Index of a node in a tree's arena.
pub type NodeId = u32;

/// Count of 100-ns ticks since 1601-01-01 UTC.
pub type FileTime = i64;

} // verus!
