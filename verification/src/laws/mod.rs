//! The laws that relate writing and reading.
//!
//! Each law is a proof function: its `requires` says of what it holds, and
//! its `ensures` states it over the grammar of [`crate::format`].

pub mod apart;
pub mod bound;
pub mod events;
pub mod round_trip;
pub mod truncation;
