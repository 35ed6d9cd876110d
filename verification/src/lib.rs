//! A key-value store core: arena allocator, B-Tree, glob matcher, RESP
//! codec, write-ahead-log and snapshot formats, command handling and
//! access metrics.
pub mod arena;
pub mod bytes_order;
pub mod btree_model;
pub mod btree;
pub mod glob;
pub mod decimal;
pub mod protocol;
pub mod resp_laws;
pub mod wal;
pub mod snapshot;
pub mod commands;
pub mod metrics;
pub mod mime;
pub mod session;
pub mod frame_laws;
