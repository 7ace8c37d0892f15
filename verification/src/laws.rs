//! What holds of every text and of every program, proved from the
//! definitions that the contracts of the scanner and of the analyzer use.

pub mod code;
pub mod names;
pub mod scanning;
pub mod slots;
