# Diskghost

Fast disk-usage and duplicate finder: where the space went, which files are
byte-identical, and how to get the space back. The library is written in Verus; what it
does is stated in `requires` / `ensures` contracts and proved.

## Layout

- `src/` is the verified library. It decides and computes, and never touches the disk:
  - `path`, `raw`, `report`, `progress`, `trail`, `walk`: what a walk of a directory tree
    yields;
  - `scan`, `tree`, `model`, `index`: the summary of a scan, and the tree that serves any
    folder below the scanned one (`laws`, `tree_laws`: totals add up, drilling in equals a
    fresh scan, what was removed is gone and nothing else is);
  - `glob`: exclude patterns; `hash`: content digests;
  - `dupes`, `stages`: groups of identical files; `reclaim`: getting their space back;
  - `remove`: taking down a file or a whole tree;
  - `snapshot`, `history`, `store`, `cache`: scans kept for comparison with later ones;
  - `text`, `shown`, `size`, `decimal`, `calendar`, `timestamps`: what people read;
  - `sort`: stable sorting and grouping.
- `tests/` runs the library on concrete values.
- `app/` is ordinary Rust around it: `main.rs` is the `diskghost` command, `disk.rs` walks,
  hashes, links and deletes, `json.rs` holds the machine-readable shapes, `convert.rs`
  converts paths, and `gui.rs` the desktop window's commands. The window is built with the
  configuration option `feature = "gui"` and needs `tauri` and `tauri-plugin-dialog`.

## What is trusted

The contracts of the functions that call `globset`, `blake3` and
`String::from_utf8_lossy` are believed, not proved. They stand in `src/glob.rs`,
`src/hash.rs` and `src/shown.rs`, each with a comment that says what it claims.
