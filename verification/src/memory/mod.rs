//! The memory layers: agent memory and workspaces, and the tier stores.

pub mod agent;
pub mod workspace;
pub mod maps;
pub mod hot;
pub mod warm;
pub mod cold;
pub mod deep;
