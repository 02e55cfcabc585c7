//! Core data of an incremental server for the MMC language: integer semantics, the mid-level
//! IR with its persistent context tree, and the bookkeeping of the elaboration server.

pub mod bigint;
pub mod types;
pub mod mir;
pub mod server;
pub mod text;
