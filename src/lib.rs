//! Turns the textual output of repeated compression timing runs into one
//! comparative table: one row per compressor, one column group per run.
pub mod text;
pub mod registry;
pub mod number;
pub mod classify;
pub mod aggregate;
pub mod render;
