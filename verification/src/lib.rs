//! BLD tooling: parse a domain spec, derive and validate its topology, render it,
//! check an implemented domain against it, and answer the MCP protocol over it.
//!
//! The library's logic is verified with Verus, and the contracts speak of the
//! spec-level views defined beside each type; the calls into `serde_json` and
//! `serde_yaml` stand behind small trusted wrappers.

pub mod json;
pub mod laws;
pub mod mcp;
pub mod render;
pub mod report;
pub mod spec;
pub mod text;
pub mod topology;
pub mod verify;
pub mod yaml;
