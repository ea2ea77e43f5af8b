# rss

A disk-space analyser: it scans a directory tree, shows it as a treemap, filters
it, exports it and keeps snapshots of it.

`src/` is the library. It is written in Verus: every function states what it
returns or changes, and the statements are proved. What the library takes from
other crates (hash tables, checksums, CSV and TOML text) goes through small
functions whose contracts are believed; their doc comments say what is believed of
whom.

- The tree: `model` is its mathematical form, `node` and `tree` hold it, `builder`
  makes it from the events of a scan, `visit` walks over it, `totals` says what its
  sums are.
- Scanning: `scan`, `walk` and `scan_tree` for any file system; `usn`, `ntfs`,
  `mft_table`, `mft` and `mft_scan` for the file table of an NTFS volume.
- Filters: `filter_grammar` says what a filter text means, `filter_parse` reads it,
  `filter_ast` holds it, `filter` and `glob` judge nodes by it, `verdicts` judges a
  whole tree, `filter_laws` says what holds of every filter.
- Exports: `export` and `export_laws` for CSV and nested documents,
  `template_grammar` and `template` for reports, `snapshot_format`, `snapshot` and `snapshot_laws` for snapshots.
- The program: `view`, `entry`, `app_shell`, `controls`, `treemap`, `fileops`,
  `view_export`, `config`, `cli` and `cli_meta` decide what the windows and the
  command line do.

`app/` is the program around it: files, threads, windows and the arithmetic on
floating-point numbers that drawing needs. `tests/` runs the library.
