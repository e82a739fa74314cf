# nixie

The logic of a GPU multiplexing service, written in Verus and proved
against its contracts: several processes share the GPUs, and the service
decides which process runs, moves each process's device data between the
devices, a shared-memory region, host memory and a spill file, and keeps
the books of where every buffer lives.

## Layout

- `src/` — the verified library.
  - Scheduling: `priority`, `statistics`, `policy` (the scheduling queue
    and its aging), `scheduler`, `eviction`, `clock`.
  - Data movement: `plan`, `prefetch`, `dispatch`, `transfer`,
    `coordinator`, `spill`, `streaming`, `swap`, `summary`, `usage`.
  - Stores: `shm`, `hostmem`, `storage`, `async_pool`, `alloc_tracking`.
  - Settings and grammars: `config`, `limit`, `parse`, `sidecar`, `cli`,
    `ipc`, `text`, `types`.
- `tests/` — tests of the library on concrete values.
- `app/` — the command-line program: argument handling, the settings file,
  the spill file's reads and writes, and the float arithmetic of device
  limit ratios.

Each module states what its functions do as `requires`/`ensures` over
mathematical views; laws that relate several functions are public proof
functions (`lemma_*`). Calls into `std` and `bytes` that the library makes
sit behind a few trusted wrappers whose doc comments say what is assumed.
