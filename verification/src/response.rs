//! Redacted report shapes returned by the server's tools.

pub mod common;
pub mod oci_ledger;
