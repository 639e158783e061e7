//! A shared grid of cells: formula reference resolution, the registry of live
//! sessions with its fan-out, and the per-connection session state machine.

pub mod cells;
pub mod events;
pub mod formula;
pub mod gateway;
pub mod registry;
