//! An append-only, checksummed key-value log with an in-memory index.
//!
//! `frame` holds the record codec, `index` the key-to-offset map and `store`
//! the store itself, kept over an in-memory image of its log file.
//! `file` and `cubesat` are two small simulations of a file and of a
//! satellite's mailbox.

pub mod frame;
mod index;
pub mod store;
pub mod file;
pub mod cubesat;

pub use frame::{decode, encode, KeyValuePair, KvError};
pub use store::ActionKv;
