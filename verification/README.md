# heapstore

Storage engine building blocks for a heap table: records are appended to a
data file (in allocation order, or grouped by bucket into extents), located
through an index of fixed-size slots, and recovered from the data file when
the index or the bucket registry is lost or damaged.

- `src/` is the library, verified with Verus: the on-disk formats and their
  checksums, record framing and checking, placement of records and record
  numbers, the replay of the bucket registry, the recovery walk over the
  data file and the plans for restoring and rebuilding the index, the
  staging of page writes, the planning of batched reads, the commit policy,
  the bookkeeping of batched transfers through a submission ring, and the
  logic of the measurement and crash programs (when a timed repetition
  stops, the random pick of records, the log of confirmed writes).
- `tests/` runs the library on concrete values.
- `app/` is the engine on real files: the blocking and io_uring I/O
  engines, aligned buffers, the paged files, the heap, and the program.
  Without arguments it runs a small demonstration; `bench matrix | space |
  updates` and `crash kill | corrupt | cost-sync | cost-integrity |
  sync-shape | crc-speed | recovery-time` (with `--dir`, `--out` and the
  options each takes) run the measurements and the reliability tests and
  write their results as CSV files under `--out`.
