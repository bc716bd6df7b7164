//! Bandit-driven mutation scheduling for a forkserver fuzzer: the per-arm
//! statistics, the adaptive reward window, the scheduling metadata and the
//! plain-value parts of the feedback, mutator and stage.
pub mod feedback;
pub mod mutator;
pub mod slopt;
pub mod stage;
