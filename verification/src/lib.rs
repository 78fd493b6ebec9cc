//! LumenFS: a content-addressed block store with crash recovery, virtual
//! disks, snapshots, leases and replication, as a verified library.
#![allow(unused_imports)]

pub mod brick;
pub mod brick_set;
pub mod burn;
pub mod bytes;
pub mod codec;
pub mod disk;
pub mod error;
pub mod format;
pub mod hash;
pub mod map;
pub mod nbd;
pub mod pool;
pub mod repl;
pub mod room;
pub mod sim;
pub mod slice;
pub mod store;
pub mod table;
pub mod wal;
