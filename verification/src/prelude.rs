//! Commonly used items of the crate, for a glob import.

pub use crate::arena::{NodeId, NodeState};
pub use crate::bam::{advance_phase, phase_lag, Bam32};
pub use crate::engine::{OrdentEngine, TickError, TickStage};
