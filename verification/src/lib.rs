//! Pack storage: a persistent key/value cache split into buckets of packs.
//!
//! The library holds the logic of the storage: how updates are routed to
//! buckets, how items are laid out in packs, the byte formats of pack files and
//! of the scope meta file, and the checks that decide whether a cache on disk
//! can be trusted. Reading and writing files is left to the caller, which hands
//! the library the bytes it read and writes the bytes the library produced.
pub mod error;
pub mod text;
pub mod hash;
pub mod model;
pub mod options;
pub mod pack;
pub mod meta;
pub mod packing;
pub mod update;
pub mod laws;
pub mod scope;
pub mod bucket;
pub mod scope_update;
pub mod scope_law;
pub mod fields;
pub mod reader;
pub mod pack_file;
pub mod meta_file;
pub mod meta_law;
pub mod placement;
pub mod store_law;
pub mod paths;
pub mod storage;
pub mod strategy;
pub mod scope_write;
pub mod validate;
pub mod split;
pub mod scope_save;
pub mod scope_read;
pub mod pending;
pub mod limits;
