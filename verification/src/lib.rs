//! Redaction, ledger preflight and list-capping logic of the Interspire MCP
//! server, with contracts proved by Verus.

pub mod text;
pub mod ip;
pub mod redact;
pub mod digest;
pub mod response;
pub mod oci_ledger;
pub mod error;
pub mod live;
pub mod private_artifacts;
pub mod redaction_laws;
pub mod email_laws;
