# storage

The storage layer of a small relational database, verified with Verus.

- `src/common.rs` — page size, header and slot sizes, `PageId`.
- `src/page.rs` — the slotted-page layout over a `PAGE_SIZE` byte buffer:
  insert, read, delete and compaction of variable-length tuples. Every
  operation is specified against the bytes of the page (`is_placement`,
  `is_compaction`) and against its logical contents, one entry per slot
  (`Page@`). The `law_*` proof functions state properties of the layout
  that hold across operations (compaction keeps every slot's contents, is
  unique and idempotent; placing a tuple appends it).
- `src/disk_manager.rs` — the `DiskManager` interface and `PageAllocator`,
  the page-allocation state of a disk manager (a fresh file starts at page
  0, an existing one continues after its last whole page).
- `app/` — what touches the file system: `FileDiskManager`, which keeps the
  pages in one file, and `TestDir`, a temporary directory for tests.
