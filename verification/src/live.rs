//! Helpers of the live backend.

pub mod support;
