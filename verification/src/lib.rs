//! Verified core of the Nixie GPU multiplexing service.
//!
//! Scheduling: `priority` (the priority ladder), `statistics` (per-client
//! running history), `policy` (the scheduling queue and its aging),
//! `scheduler` (switching the process that holds the devices), `eviction`
//! (what a switched-out process must give up), `clock`.
//!
//! Migration of process data: `plan` (which buffers move where), `prefetch`
//! (prefetch orders), `dispatch` (a plan split per device, and its totals),
//! `transfer` (the order buffers go onto a device), `coordinator` (who gets
//! shared-memory room first), `spill` (leaving shared memory), `streaming`
//! (the copy layout on the client side), `swap`, `summary`, `usage`.
//!
//! Stores: `shm` (shared memory), `hostmem` (host memory), `storage` (the
//! spill file), `async_pool` (the client side's cache of device blocks),
//! `alloc_tracking` (the client side's allocations).
//!
//! Settings and grammars: `config`, `limit` (device memory limits), `parse`
//! (movement orders and sizes), `sidecar` (client-side settings and launch
//! state), `cli`, `ipc`, `text`, `types`.

pub mod priority;
pub mod statistics;
pub mod clock;
pub mod policy;
pub mod text;
pub mod types;
pub mod parse;
pub mod plan;
pub mod scheduler;
pub mod prefetch;
pub mod shm;
pub mod config;
pub mod ipc;
pub mod sidecar;
pub mod alloc_tracking;
pub mod swap;
pub mod summary;
pub mod storage;
pub mod hostmem;
pub mod limit;
pub mod cli;
pub mod transfer;
pub mod dispatch;
pub mod usage;
pub mod coordinator;
pub mod streaming;
pub mod eviction;
pub mod async_pool;
pub mod spill;
