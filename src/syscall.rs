//! The system-call layer: argument checks and decisions, over the state
//! that each call reads and changes.
pub mod fs;
pub mod process;
