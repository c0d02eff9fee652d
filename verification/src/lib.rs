//! A kernel-level file abstraction layer: open-file handles with private
//! cursors and access modes, POSIX-like hard-link bookkeeping, and the
//! name-based open/link/unlink operations, all on top of a flat,
//! inode-based filesystem.
//!
//! Exclusive access to shared state — a handle's cursor, the link-count
//! table, the filesystem — is expressed by `&mut`: a caller that holds
//! several kernel contexts serialises them around these calls, and two
//! handles on one inode stay independent because each owns its cursor.

pub mod fs;
pub mod table;
pub mod inode;
pub mod laws;
pub mod process;
