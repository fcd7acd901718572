use interspire_mcp::oci_ledger::{
    classify_parsed_row, verify_preflight, verify_preflight_start, JsonField, LedgerLine,
    LineOutcome, OciSendLedgerConfig, PreflightStep,
};
use interspire_mcp::response::oci_ledger::{
    short_hash, OciLedgerPreflightReport, OciLedgerPreflightRequest,
};

fn config(path: Option<&str>, required: bool) -> OciSendLedgerConfig {
    OciSendLedgerConfig {
        path: path.map(str::to_string),
        required_for_sends: required,
    }
}

fn request() -> OciLedgerPreflightRequest {
    OciLedgerPreflightRequest {
        campaign_id: "7".to_string(),
        batch_id: "batch-1".to_string(),
        expected_rows: 2,
        sender_domain: None,
        expected_manifest_sha256: None,
    }
}

fn text(line: &str) -> LedgerLine {
    LedgerLine::Text(line.to_string())
}

#[test]
fn short_hash_is_twenty_lowercase_hex_of_the_normalised_value() {
    assert_eq!(short_hash("campaign-private"), "617dd861b1fecf2999f9");
    assert_eq!(short_hash("  CAMPAIGN-private "), "617dd861b1fecf2999f9");
}

#[test]
fn fixture_report_is_verified_with_hashed_identifiers() {
    let report = OciLedgerPreflightReport::fixture_verified();
    assert!(report.verified && report.required && report.configured && report.requested);
    assert_eq!(report.campaign_hash.as_deref(), Some("fd8ed1d32f7cff38c3ba"));
    assert_eq!(report.batch_hash, Some(short_hash("fixture-batch")));
    assert_eq!(report.sender_domain.as_deref(), Some("example.invalid"));
    assert_eq!(report.expected_rows, Some(1));
    assert_eq!(report.matched_rows, 1);
    assert!(report.warnings.is_empty());
}

#[test]
fn skipped_report_is_verified_only_when_not_required() {
    let optional = OciLedgerPreflightReport::skipped(false, true, "note");
    assert!(optional.verified && !optional.requested && optional.configured);
    assert_eq!(optional.warnings, vec!["note".to_string()]);
    let required = OciLedgerPreflightReport::skipped(true, false, "note");
    assert!(!required.verified);
}

#[test]
fn blocked_report_redacts_its_warning() {
    let req = request();
    let report = OciLedgerPreflightReport::blocked(
        true,
        true,
        Some(&req),
        "ledger at https://ledger.example.net/x failed for ops@example.net".to_string(),
    );
    assert!(!report.verified && report.requested);
    assert_eq!(report.campaign_hash, Some(short_hash("7")));
    assert_eq!(report.expected_rows, Some(2));
    assert_eq!(
        report.warnings,
        vec!["ledger at [redacted-url] failed for [redacted-email]".to_string()]
    );
    let no_request = OciLedgerPreflightReport::blocked(false, false, None, "x".to_string());
    assert!(!no_request.requested && no_request.campaign_hash.is_none());
}

#[test]
fn preflight_without_request_is_skipped() {
    let report = verify_preflight(&config(Some("/l.jsonl"), false), None, 3, None, None);
    assert!(report.verified && !report.requested);
    assert_eq!(
        report.warnings,
        vec!["OCI send ledger preflight was not requested.".to_string()]
    );
}

#[test]
fn preflight_blocks_each_invalid_request() {
    let cfg = config(Some("/l.jsonl"), true);
    let mut req = request();
    let r = verify_preflight(&cfg, Some(&req), 3, None, None);
    assert!(r.warnings[0].contains("expected row count does not match"));

    req.campaign_id = "a/b".to_string();
    let r = verify_preflight(&cfg, Some(&req), 2, None, None);
    assert!(r.warnings[0].contains("must be non-empty printable identifiers"));

    req.campaign_id = " 8 ".to_string();
    let r = verify_preflight(&cfg, Some(&req), 2, Some(7), None);
    assert!(r.warnings[0].contains("must match the Interspire campaign"));
    let r = verify_preflight(&cfg, Some(&req), 2, Some(8), None);
    assert!(r.warnings[0].contains("could not be opened"));

    req.sender_domain = Some("bad_domain".to_string());
    let r = verify_preflight(&cfg, Some(&req), 2, None, None);
    assert_eq!(
        r.warnings[0],
        "OCI send ledger sender_domain must be a valid domain [redacted]"
    );

    req.sender_domain = None;
    req.expected_manifest_sha256 = Some("abc".to_string());
    let r = verify_preflight(&cfg, Some(&req), 2, None, None);
    assert!(r.warnings[0].contains("64-character hex SHA-256"));
    assert!(!r.verified && r.manifest_sha256.is_none());
}

#[test]
fn preflight_blocks_without_configured_path_or_openable_ledger() {
    let req = request();
    let r = verify_preflight(&config(Some("   "), true), Some(&req), 2, None, None);
    assert!(!r.configured && !r.verified);
    assert!(r.warnings[0].contains("INTERSPIRE_OCI_SEND_LEDGER_PATH is not configured"));
    let r = verify_preflight(&config(Some("/l.jsonl"), true), Some(&req), 2, None, None);
    assert!(r.configured && !r.verified);
    assert!(r.warnings[0].contains("could not be opened"));
}

#[test]
fn preflight_start_asks_for_the_ledger_only_after_checks() {
    let req = request();
    assert!(matches!(
        verify_preflight_start(&config(Some("/l.jsonl"), true), Some(&req), 2, None),
        PreflightStep::ReadLedger
    ));
    assert!(matches!(
        verify_preflight_start(&config(Some("/l.jsonl"), true), Some(&req), 5, None),
        PreflightStep::Finished(_)
    ));
}

#[test]
fn preflight_counts_rows_and_invalid_lines() {
    let mut req = request();
    req.sender_domain = Some(" Example.NET ".to_string());
    req.expected_manifest_sha256 = Some("AB".repeat(32));
    let manifest = "ab".repeat(32);
    let lines = vec![
        text(&format!(
            "{{\"campaign_id\":\" 7 \",\"batchId\":\"batch-1\",\"sender_domain\":\"Example.net\",\"manifest_sha256\":\"{manifest}\",\"recipient\":\"r\",\"messageId\":\"m\"}}"
        )),
        text(&format!(
            "{{\"campaignIdHash\":\"{}\",\"batch_id\":\"batch-1\",\"approved_sender\":\"ops@example.net\",\"manifestSha256\":\"{manifest}\",\"recipient\":\"  \",\"correlation_id\":\"c\"}}",
            short_hash("7").to_uppercase()
        )),
        text(""),
        text("not json"),
        text("[1, 2]"),
        LedgerLine::Unreadable,
        text("{\"campaign_id\":\"7\",\"batch_id\":\"other\"}"),
    ];
    let r = verify_preflight(&config(Some("/l.jsonl"), true), Some(&req), 2, Some(7), Some(&lines));
    assert_eq!(r.matched_rows, 2);
    assert_eq!(r.rows_with_recipient_key, 1);
    assert_eq!(r.rows_with_trace_key, 2);
    assert_eq!(r.invalid_rows, 3);
    assert!(!r.verified);
    assert_eq!(r.sender_domain.as_deref(), Some("example.net"));
    assert_eq!(r.manifest_sha256.as_deref(), Some(manifest.as_str()));
    assert_eq!(
        r.warnings,
        vec![
            "one or more matched OCI send ledger rows lack a recipient key or recipient hash"
                .to_string(),
            "one or more OCI send ledger rows were invalid JSON objects".to_string(),
        ]
    );
}

#[test]
fn preflight_reports_matched_count_mismatch() {
    let req = request();
    let lines = vec![text(
        "{\"campaign_id\":\"7\",\"batch_id\":\"batch-1\",\"recipient_id\":\"1\",\"message_id\":\"2\"}",
    )];
    let r = verify_preflight(&config(Some("/l.jsonl"), false), Some(&req), 2, None, Some(&lines));
    assert_eq!(r.matched_rows, 1);
    assert!(!r.verified);
    assert_eq!(
        r.warnings,
        vec!["OCI send ledger matched 1 rows but expected 2 rows".to_string()]
    );
}

fn field(key: &str, text: Option<&str>) -> JsonField {
    JsonField {
        key: key.to_string(),
        text: text.map(str::to_string),
    }
}

#[test]
fn parsed_rows_are_classified_by_their_members() {
    let req = request();
    assert_eq!(classify_parsed_row(&None, &req), LineOutcome::Invalid);
    assert_eq!(classify_parsed_row(&Some(None), &req), LineOutcome::Invalid);
    let by_id = vec![
        field("campaignId", Some(" 7 ")),
        field("batch_id", Some("batch-1")),
        field("recipient_hash", Some("abc")),
        field("message_id", Some("  ")),
    ];
    assert_eq!(
        classify_parsed_row(&Some(Some(by_id)), &req),
        LineOutcome::Matched { recipient: true, trace: false }
    );
    let batch_hash = short_hash("batch-1").to_uppercase();
    let by_hash = vec![
        field("campaign_id", Some("7")),
        field("batchHash", Some(batch_hash.as_str())),
        field("correlationId", Some("c-1")),
    ];
    assert_eq!(
        classify_parsed_row(&Some(Some(by_hash)), &req),
        LineOutcome::Matched { recipient: false, trace: true }
    );
    let other_batch = vec![field("campaign_id", Some("7")), field("batch_id", Some("batch-2"))];
    assert_eq!(
        classify_parsed_row(&Some(Some(other_batch)), &req),
        LineOutcome::Unmatched
    );
    let not_a_string = vec![field("campaign_id", None), field("batch_id", Some("batch-1"))];
    assert_eq!(
        classify_parsed_row(&Some(Some(not_a_string)), &req),
        LineOutcome::Unmatched
    );
}

#[test]
fn recipient_and_message_values_only_count() {
    let req = request();
    let row = |recipient: &str, message: &str| {
        Some(Some(vec![
            field("campaign_id", Some("7")),
            field("batch_id", Some("batch-1")),
            field("recipient_email", Some(recipient)),
            field("message_id", Some(message)),
        ]))
    };
    let a = classify_parsed_row(&row("alice@example.com", "msg-1"), &req);
    let b = classify_parsed_row(&row("bob@example.net", "msg-2"), &req);
    assert_eq!(a, b);
    assert_eq!(a, LineOutcome::Matched { recipient: true, trace: true });
    let lines = |recipient: &str| vec![
        text(&format!(r#"{{"campaign_id":"7","batch_id":"batch-1","recipient_email":"{recipient}","message_id":"m"}}"#)),
        text(""),
    ];
    let cfg = config(Some("/ledger.jsonl"), true);
    let one = verify_preflight(&cfg, Some(&req), 2, None, Some(&lines("alice@example.com")));
    let two = verify_preflight(&cfg, Some(&req), 2, None, Some(&lines("bob@example.net")));
    assert_eq!(one.matched_rows, two.matched_rows);
    assert_eq!(one.rows_with_recipient_key, two.rows_with_recipient_key);
    assert_eq!(one.warnings, two.warnings);
    assert_eq!(one.verified, two.verified);
}

#[test]
fn dropping_a_filter_keeps_a_match() {
    let mut with_domain = request();
    with_domain.sender_domain = Some("Example.Invalid".to_string());
    let fields = vec![
        field("campaign_id", Some("7")),
        field("batch_id", Some("batch-1")),
        field("sender", Some("ops@example.invalid")),
    ];
    let parsed = Some(Some(fields));
    assert!(matches!(classify_parsed_row(&parsed, &with_domain), LineOutcome::Matched { .. }));
    assert!(matches!(classify_parsed_row(&parsed, &request()), LineOutcome::Matched { .. }));
}
