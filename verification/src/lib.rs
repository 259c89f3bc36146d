//! Two line-driven engines: a rock-paper-scissors scorer and a rope tracker
//! on the integer grid. Both take their input as lines already in memory.

pub mod failure;
pub mod rope;
pub mod scoring;
pub mod text;
