//! KoruDelta core logic: set reconciliation, content hashing, memory-tier
//! planning and write-ahead-log record handling, with machine-checked contracts.

pub mod causal_graph;
pub mod error;
pub mod floatbits;
pub mod hashing;
pub mod json;
pub mod lifecycle;
pub mod mapper;
pub mod network;
pub mod network_agent;
pub mod network_process;
pub mod memory;
pub mod numfmt;
pub mod orchestrator;
pub mod persistence;
pub mod ordering;
pub mod processes;
pub mod query;
pub mod reference_graph;
pub mod strings;
pub mod types;
pub mod reconciliation;
pub mod roots;
pub mod sensory_interface;
pub mod storage;
pub mod storage_agent;
