# fsyncd

A VFS-level file system replicator: a server intercepts file system
operations, sends them to replicas, and can keep a bidirectional journal of
them; journals can be merged into forward snapshots that are applied later.

The logic is verified with Verus; what touches the operating system is not.

## Layout

- `src/` — the verified library:
  - `journal` — the on-disk journal: header and frame encoding, the ring of
    blocks, appending, recovery of the tail, forward and reverse cursors;
  - `bilog` — bidirectional journal entries: each entry takes a file system
    state to the other one and back;
  - `snapshot`, `freelist`, `keyed` — forward snapshots: merging operations
    into a table of paths, file data kept as blocks of a snapshot file with
    first-fit allocation, compaction, and the steps that apply a snapshot;
  - `vfs`, `mdata` — the operations themselves and their metadata summary;
  - `protocol` — replica modes, routing, acknowledgements, handshakes and
    framing;
  - `filestore`, `iolimit`, `mountpaths`, `mirrorplan`, `setattr`, `util`,
    `codec`, `error` — smaller pieces: the store of deleted files, the
    bandwidth limiter, path setup before mounting, the decisions of the
    Windows callbacks, the split of a FUSE attribute change, size parsing,
    zero-run encoding and lazy values, byte encodings, traced errors.
- `tests/` — tests of the library on concrete values.
- `app/` — the command line and the input and output around the library.
