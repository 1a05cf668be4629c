//! A content-addressed state store with an in-memory overlay, an archival
//! (full-history) commit policy, and a manager that migrates a store across
//! schema versions through double-buffered temporary databases.

pub mod alist;
pub mod archivedb;
pub mod bytes;
pub mod config;
pub mod database;
pub mod error;
pub mod hash;
pub mod laws;
pub mod log_entry;
pub mod migration;
pub mod overlay;
