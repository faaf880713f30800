# wt_store

The content-addressed store behind instant git worktrees: blobs named by
their SHA-256, reference counts, a verified-blob ledger, an ingest
validation cache, whole-directory snapshot manifests with their
selection index and LRU sidecar, worktree mirrors and leases, and the
mark-and-sweep collector that reclaims what nothing references.

- `src/` is the library, written in Verus. The record formats the store
  keeps on disk (manifests, mirrors, leases, ref counts, the selection
  index, the LRU file, the journal, sidecars) each come with a writer and
  a reader whose contracts are exact, and with a proof that the reader
  gives back what the writer wrote, on the values the format can hold:
  mirrors and leases with non-empty paths (a mirror's serializer states
  its own round trip), sidecars with paths free of tabs and newlines,
  manifests as construction leaves them. The store's decisions (what a
  sweep reclaims and reports, which snapshots a budget evicts, where a
  hydrated file lands, whether a published snapshot is valid, whether
  streamed file bytes match their address) are functions with exact
  contracts. Two small searches stay with the filesystem side, because
  each step of them is an existence or validity probe: finding the
  nearest lockfile above a directory, and taking the first snapshot of a
  ring that still validates.
- Materializing a snapshot into a worktree (cloning or copying files
  into place) is not here: it is done by the workspace's copy crate,
  which this crate does not depend on. The library holds the decisions
  around it (fallback plans, destination paths, receipts); there is no
  hydration entry point in `app/`.
- `app/` is the filesystem side: directory walks, reads and writes,
  renames, locks, clocks and process probes, carrying out what the
  library decides.
- `tests/` exercises the library on concrete values.
