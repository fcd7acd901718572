//! Report shapes shared by several tools.

use vstd::prelude::*;

verus! {

/// One mailing list as list readback reports it.
#[derive(Debug)]
pub struct ListSummary {
    pub list_id: u64,
    pub name: String,
    pub subscribed_count: Option<u64>,
    pub unsubscribed_count: Option<u64>,
    pub autoresponder_count: Option<u64>,
    pub owner_name: Option<String>,
    pub owner_email_redacted: Option<String>,
    pub reply_to_email_redacted: Option<String>,
    pub bounce_email_redacted: Option<String>,
    pub source: String,
}

} // verus!
