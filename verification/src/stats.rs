//! Runtime statistics. Watch `watermark` and `active_transactions`: see
//! [`GcStats`] for why.

pub use crate::gc::GcStats;
