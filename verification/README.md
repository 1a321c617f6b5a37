# dejadupe

Finds, deletes and copies files without duplicate contents.

`src/` is a library verified with Verus. It decides which files can have a
duplicate at all (`size_candidates`), groups hashed files into duplicate groups
(`group_duplicates`), picks the copy of each group to keep (`select_keeper`,
`plan_deletions`), and plans a copy of a directory tree that skips contents
already present (`copy_unique`, `first_conflict`). Content digests are BLAKE3,
computed by the `blake3` crate behind a small trusted interface
(`src/hasher.rs`).

`app/` is the command-line program around it: it walks directories, reads and
hashes files, deletes and copies them, and prints.

```sh
dejadupe [PATH]                               # report duplicate groups
dejadupe delete [PATH] [--keep-oldest] [--execute]
dejadupe copy SOURCE DESTINATION
```
