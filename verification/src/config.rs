//! Tuning knobs.

pub use crate::oracle::OracleConfig;
