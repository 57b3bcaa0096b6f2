//! Intake of process records for a CPU-scheduling exercise, with the small
//! string helpers that go with it. Every item here is verified.

pub mod borrowing;
pub mod intake;
pub mod parse;
pub mod record;
pub mod ownership;
