//! Deterministic, unbiased index streams for regenerating passwords from a seed.

pub mod alphabet;
pub mod digest;
pub mod generator;
pub mod mask;
pub mod pwd;
pub mod sample;
pub mod scan;
