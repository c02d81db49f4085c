//! Migration runner and typed query helpers for a MySQL-backed service.
//!
//! The library holds the decisions; the caller performs the database and
//! file-system work and hands the results back as plain values.
pub mod config;
pub mod decimal;
pub mod error;
pub mod migration;
pub mod query;
