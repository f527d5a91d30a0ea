//! The decisions of a memory service: which data records have been processed for which dataset,
//! which memories are worth keeping, and whom a request acts for.
//!
//! Reading and writing the relational store, asking the judge and serving requests are left to
//! the program around this library; it hands in what it read and is told what to do.

pub mod data;
pub mod error;
pub mod ids;
pub mod ingest_gate;
pub mod json;
pub mod pipeline_status;
pub mod score;
pub mod server;
pub mod tenant;
pub mod text;
