# hf-mount

Mounts a Hugging Face bucket or repository as a filesystem. Repositories are read-only; buckets can
be written to, either as append-only streams that are committed on close, or through staging files
that allow random writes and are flushed in the background.

The logic is a library verified with Verus (`src/`). The program around it (`app/`) performs the
requests, the local file I/O and the FUSE protocol, and hands the results to the library step by
step.

## Layout

- `src/hub_api.rs`: routes, headers, listings, batch operations and retries of the Hub API.
- `src/cached_xet_client.rs`: the cache of plans for putting files together from storage.
- `src/xet.rs`: staging files, download ranges.
- `src/setup.rs`: what a mount is made of, from its options.
- `src/fuse.rs`: what the FUSE server decides.
- `src/virtual_fs/`: the filesystem.
  - `inode.rs`, `model.rs`: the inode table and its mathematical model.
  - `tree.rs`, `relocation.rs`, `laws.rs`: the invariant of the table, and what every operation
    keeps.
  - `history.rs`: what holds of the table after any number of calls.
  - `walks.rs`: whether walks down from an inode end.
  - `listing.rs`, `lookup.rs`, `negative_cache.rs`, `poll.rs`: learning what the remote has.
  - `namespace.rs`, `rename.rs`, `setattr.rs`: changing names and attributes.
  - `handles.rs`, `streaming.rs`: opening, reading, writing, committing and closing.
  - `sweep.rs`: eviction of inodes that were not used for long.
- `src/text.rs`, `src/time.rs`, `src/error.rs`: strings, time and errors.
- `tests/`: tests of the library.

## What is proved

Contracts state the result of each function exactly, over the models of the types. Beyond single
functions, public proof functions named `law_...` state what holds of the whole: that the inode
table stays a tree whose names and paths agree under every operation, that local changes outlive
polls, listings, commits and sweeps, that the plan for a part of a file covers it, that requests are
made once at a time and repeated a bounded number of times.

Inode numbers are never given out twice, and paths and inodes stay paired.

Clocks, `chrono`'s date parsing and `serde_json`'s string escaping are trusted; the wrappers around
them say what is claimed of each.
