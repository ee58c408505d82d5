//! Scheduling policies.

pub mod priority;
