//! Background processes that maintain the memory system.

pub mod genome_update;
pub mod consolidation;
pub mod distillation;
