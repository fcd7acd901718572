//! The OCI send-ledger preflight request and its redacted report.

use vstd::prelude::*;
use crate::redact::{redact_sensitive_text, redacted_text};
use crate::text::{ascii_lower, from_chars, to_ascii_lower, to_chars, trim, trim_chars};

verus! {

/// What an operator asks the preflight to confirm about a send batch.
#[derive(Debug, Clone)]
pub struct OciLedgerPreflightRequest {
    pub campaign_id: String,
    pub batch_id: String,
    pub expected_rows: u64,
    pub sender_domain: Option<String>,
    pub expected_manifest_sha256: Option<String>,
}

/// The request as plain values.
pub struct PreflightRequestView {
    pub campaign_id: Seq<char>,
    pub batch_id: Seq<char>,
    pub expected_rows: u64,
    pub sender_domain: Option<Seq<char>>,
    pub expected_manifest_sha256: Option<Seq<char>>,
}

impl View for OciLedgerPreflightRequest {
    type V = PreflightRequestView;

    open spec fn view(&self) -> PreflightRequestView {
        PreflightRequestView {
            campaign_id: self.campaign_id@,
            batch_id: self.batch_id@,
            expected_rows: self.expected_rows,
            sender_domain: self.sender_domain.deep_view(),
            expected_manifest_sha256: self.expected_manifest_sha256.deep_view(),
        }
    }
}

/// The aggregate, redacted outcome of a ledger preflight.
#[derive(Debug, Clone)]
pub struct OciLedgerPreflightReport {
    pub required: bool,
    pub configured: bool,
    pub requested: bool,
    pub verified: bool,
    pub campaign_hash: Option<String>,
    pub batch_hash: Option<String>,
    pub sender_domain: Option<String>,
    pub expected_rows: Option<u64>,
    pub matched_rows: u64,
    pub rows_with_recipient_key: u64,
    pub rows_with_trace_key: u64,
    pub invalid_rows: u64,
    pub manifest_sha256: Option<String>,
    pub raw_payload_returned: bool,
    pub warnings: Vec<String>,
}

/// The report as plain values.
pub struct PreflightReportView {
    pub required: bool,
    pub configured: bool,
    pub requested: bool,
    pub verified: bool,
    pub campaign_hash: Option<Seq<char>>,
    pub batch_hash: Option<Seq<char>>,
    pub sender_domain: Option<Seq<char>>,
    pub expected_rows: Option<u64>,
    pub matched_rows: u64,
    pub rows_with_recipient_key: u64,
    pub rows_with_trace_key: u64,
    pub invalid_rows: u64,
    pub manifest_sha256: Option<Seq<char>>,
    pub raw_payload_returned: bool,
    pub warnings: Seq<Seq<char>>,
}

impl View for OciLedgerPreflightReport {
    type V = PreflightReportView;

    open spec fn view(&self) -> PreflightReportView {
        PreflightReportView {
            required: self.required,
            configured: self.configured,
            requested: self.requested,
            verified: self.verified,
            campaign_hash: self.campaign_hash.deep_view(),
            batch_hash: self.batch_hash.deep_view(),
            sender_domain: self.sender_domain.deep_view(),
            expected_rows: self.expected_rows,
            matched_rows: self.matched_rows,
            rows_with_recipient_key: self.rows_with_recipient_key,
            rows_with_trace_key: self.rows_with_trace_key,
            invalid_rows: self.invalid_rows,
            manifest_sha256: self.manifest_sha256.deep_view(),
            raw_payload_returned: self.raw_payload_returned,
            warnings: self.warnings.deep_view(),
        }
    }
}

/// The short identifier hash used in ledgers and reports: the first 10 bytes
/// of the SHA-256 digest of the trimmed, ASCII-lower-cased value, in
/// hexadecimal.
pub open spec fn short_hash_of(value: Seq<char>) -> Seq<char> {
    crate::digest::digest_hex(ascii_lower(trim(value)), 10)
}

/// `short_hash_of(value@)`, 20 hexadecimal characters.
pub fn short_hash(value: &str) -> (r: String)
    ensures
        r@ == short_hash_of(value@),
        r@.len() == 20,
{
    let chars = to_chars(value);
    short_hash_chars(chars.as_slice())
}

pub fn short_hash_chars(value: &[char]) -> (r: String)
    ensures
        r@ == short_hash_of(value@),
        r@.len() == 20,
{
    let trimmed = trim_chars(value);
    let lowered = to_ascii_lower(trimmed.as_slice());
    let normalized = from_chars(lowered.as_slice());
    crate::digest::digest_hex_prefix(&normalized, 10)
}

/// The hash of an optional request field.
pub open spec fn hash_of_field(request: Option<PreflightRequestView>, campaign: bool) -> Option<
    Seq<char>,
> {
    match request {
        Some(q) => Some(short_hash_of(if campaign {
            q.campaign_id
        } else {
            q.batch_id
        })),
        None => None,
    }
}

pub open spec fn request_view(request: Option<&OciLedgerPreflightRequest>) -> Option<
    PreflightRequestView,
> {
    match request {
        Some(q) => Some(q@),
        None => None,
    }
}

/// A report for a preflight that did not run.
pub open spec fn skipped_report(required: bool, configured: bool, note: Seq<char>) -> PreflightReportView {
    PreflightReportView {
        required,
        configured,
        requested: false,
        verified: !required,
        campaign_hash: None,
        batch_hash: None,
        sender_domain: None,
        expected_rows: None,
        matched_rows: 0,
        rows_with_recipient_key: 0,
        rows_with_trace_key: 0,
        invalid_rows: 0,
        manifest_sha256: None,
        raw_payload_returned: false,
        warnings: seq![note],
    }
}

/// A report for a preflight that refused the request: never verified, with
/// only hashed identifiers and the redacted warning.
pub open spec fn blocked_report(
    required: bool,
    configured: bool,
    request: Option<PreflightRequestView>,
    warning: Seq<char>,
) -> PreflightReportView {
    PreflightReportView {
        required,
        configured,
        requested: request is Some,
        verified: false,
        campaign_hash: hash_of_field(request, true),
        batch_hash: hash_of_field(request, false),
        sender_domain: None,
        expected_rows: match request {
            Some(q) => Some(q.expected_rows),
            None => None,
        },
        matched_rows: 0,
        rows_with_recipient_key: 0,
        rows_with_trace_key: 0,
        invalid_rows: 0,
        manifest_sha256: None,
        raw_payload_returned: false,
        warnings: seq![redacted_text(warning)],
    }
}

/// The report that the fixture backend returns.
pub open spec fn fixture_report() -> PreflightReportView {
    PreflightReportView {
        required: true,
        configured: true,
        requested: true,
        verified: true,
        campaign_hash: Some(short_hash_of("fixture-campaign"@)),
        batch_hash: Some(short_hash_of("fixture-batch"@)),
        sender_domain: Some("example.invalid"@),
        expected_rows: Some(1),
        matched_rows: 1,
        rows_with_recipient_key: 1,
        rows_with_trace_key: 1,
        invalid_rows: 0,
        manifest_sha256: None,
        raw_payload_returned: false,
        warnings: seq![],
    }
}

fn optional_short_hash(request: Option<&OciLedgerPreflightRequest>, campaign: bool) -> (r: Option<
    String,
>)
    ensures
        r.deep_view() == hash_of_field(request_view(request), campaign),
{
    match request {
        Some(q) => {
            let h = if campaign {
                short_hash(q.campaign_id.as_str())
            } else {
                short_hash(q.batch_id.as_str())
            };
            Some(h)
        },
        None => None,
    }
}

impl OciLedgerPreflightReport {
    /// The report for a preflight that was not requested: verified exactly
    /// when the ledger is not required.
    pub fn skipped(required: bool, configured: bool, note: &str) -> (r: Self)
        ensures
            r@ == skipped_report(required, configured, note@),
    {
        let mut warnings: Vec<String> = Vec::new();
        warnings.push(String::from_str(note));
        let r = Self {
            required,
            configured,
            requested: false,
            verified: !required,
            campaign_hash: None,
            batch_hash: None,
            sender_domain: None,
            expected_rows: None,
            matched_rows: 0,
            rows_with_recipient_key: 0,
            rows_with_trace_key: 0,
            invalid_rows: 0,
            manifest_sha256: None,
            raw_payload_returned: false,
            warnings,
        };
        assert(r@.warnings =~= seq![note@]);
        r
    }

    /// The report for a refused preflight: never verified, with hashed
    /// identifiers and the redacted warning.
    pub fn blocked(
        required: bool,
        configured: bool,
        request: Option<&OciLedgerPreflightRequest>,
        warning: String,
    ) -> (r: Self)
        ensures
            r@ == blocked_report(required, configured, request_view(request), warning@),
    {
        let mut warnings: Vec<String> = Vec::new();
        warnings.push(redact_sensitive_text(warning.as_str()));
        let expected_rows = match request {
            Some(q) => Some(q.expected_rows),
            None => None,
        };
        let r = Self {
            required,
            configured,
            requested: request.is_some(),
            verified: false,
            campaign_hash: optional_short_hash(request, true),
            batch_hash: optional_short_hash(request, false),
            sender_domain: None,
            expected_rows,
            matched_rows: 0,
            rows_with_recipient_key: 0,
            rows_with_trace_key: 0,
            invalid_rows: 0,
            manifest_sha256: None,
            raw_payload_returned: false,
            warnings,
        };
        assert(r@.warnings =~= seq![redacted_text(warning@)]);
        r
    }

    /// The report of the fixture backend: one verified matching row.
    pub fn fixture_verified() -> (r: Self)
        ensures
            r@ == fixture_report(),
    {
        let r = Self {
            required: true,
            configured: true,
            requested: true,
            verified: true,
            campaign_hash: Some(short_hash("fixture-campaign")),
            batch_hash: Some(short_hash("fixture-batch")),
            sender_domain: Some(String::from_str("example.invalid")),
            expected_rows: Some(1),
            matched_rows: 1,
            rows_with_recipient_key: 1,
            rows_with_trace_key: 1,
            invalid_rows: 0,
            manifest_sha256: None,
            raw_payload_returned: false,
            warnings: Vec::new(),
        };
        assert(r@.warnings =~= Seq::<Seq<char>>::empty());
        r
    }
}

/// Hashing ignores surrounding whitespace.
pub proof fn lemma_short_hash_trim(value: Seq<char>)
    ensures
        short_hash_of(trim(value)) == short_hash_of(value),
{
    crate::text::lemma_trim_idempotent(value);
}

/// The short hash ignores ASCII case and surrounding whitespace.
pub proof fn law_short_hash_ignores_case_and_whitespace(value: Seq<char>)
    ensures
        short_hash_of(ascii_lower(value)) == short_hash_of(value),
        short_hash_of(trim(value)) == short_hash_of(value),
{
    crate::text::lemma_trim_lower_commute(value);
    crate::text::lemma_ascii_lower_idempotent(trim(value));
    crate::text::lemma_trim_idempotent(value);
}

} // verus!
