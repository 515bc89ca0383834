# sd_core

The decision logic of a library manager's organize, rules and transcode
features, written in Verus with its behaviour stated in `requires` / `ensures`
contracts and proved.

## Layout

- `src/organize/`: organize tasks over a Windows folder tree.
  - `path.rs`: canonical path keys, ancestry and overlap, move-topology checks.
  - `tree.rs`, `layout.rs`: interval trees of items, progress, decision roots.
  - `plan.rs`, `grouping.rs`, `conflicts.rs`: the commit plan, compacted
    discard roots, move groups by destination, unsafe topologies.
  - `commit.rs`, `commit_job.rs`: commit gates and the step-by-step commit job.
  - `lifecycle.rs`, `decision.rs`, `records.rs`, `create.rs`, `summary.rs`,
    `listing.rs`, `cursor.rs`, `preflight.rs`, `snapshot.rs`: the decisions of
    each repository operation over stored rows, paging, cursors and checks.
- `src/rules/`: rule conditions, their evaluation and validation, and macro runs.
- `src/transcode/`: ffmpeg argument building and encoder selection.
- `src/search.rs`, `src/models.rs`: tag inheritance and the embedding catalog.
- `src/text.rs`, `src/ids.rs`: text and identifier helpers.
- `tests/`: tests run against the compiled library.
- `app/`: the I/O around the library (file system scans, ffmpeg probe,
  serialization copies of the library's types).

Calls into globset, uuid and serde_json go through a few trusted wrappers
whose contracts state what those crates document.
