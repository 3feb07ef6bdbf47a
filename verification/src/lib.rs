//! Rugst: a local semantic memory store. This crate holds its verified core.

pub mod embedding;
pub mod interop;
pub mod memory;
pub mod search;
pub mod server;
pub mod text;
