//! A small embedded key-value engine: a skip-list index over byte keys,
//! the record format of its write-ahead log, and the coordinator that
//! keeps the index equal to the replay of the log.

pub mod arena;
pub mod codec;
pub mod db;
pub mod endian;
pub mod kv;
pub mod lex;
pub mod replay;
pub mod rng;
pub mod skip_list;
pub mod wal;

pub use crate::db::{DatabaseError, DB};
pub use crate::kv::KvPair;
pub use crate::skip_list::{SkipList, SkipListError};
pub use crate::wal::{Wal, WalError};
