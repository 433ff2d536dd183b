//! Lindenmayer systems: a production engine that rewrites symbol sequences
//! level by level, and a turtle interpreter that resolves such a sequence
//! into the strokes of a drawing.

pub mod lsystem;
pub mod rewriting;
pub mod lsystem_reader;
pub mod turtle;
pub mod nesting;
