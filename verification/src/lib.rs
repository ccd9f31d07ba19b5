//! A cycle-level simulator of Tomasulo's algorithm: instructions are issued
//! to reservation stations, wait for their operands on the common data bus,
//! execute on a bounded number of functional units and write their results
//! back to the register file.
pub mod instruction;
pub mod common_data_bus;
pub mod reserve_station;
pub mod parse;
pub mod semantics;
pub mod platform;
pub mod queue;
pub mod laws;
pub mod timing;
pub mod progress;
