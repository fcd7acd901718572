use interspire_mcp::oci_ledger::{verify_preflight, LedgerLine, OciSendLedgerConfig};
use serde_json::Value;
use interspire_mcp::response::oci_ledger::{
    short_hash as ledger_hash, OciLedgerPreflightReport, OciLedgerPreflightRequest,
};

fn opt_str(value: &Option<String>) -> Value {
    match value {
        Some(text) => Value::String(text.clone()),
        None => Value::Null,
    }
}

/// The report as the server serialises it, built field by field.
fn report_body(report: &OciLedgerPreflightReport) -> String {
    let mut map = serde_json::Map::new();
    map.insert("required".to_string(), Value::Bool(report.required));
    map.insert("configured".to_string(), Value::Bool(report.configured));
    map.insert("requested".to_string(), Value::Bool(report.requested));
    map.insert("verified".to_string(), Value::Bool(report.verified));
    map.insert("campaign_hash".to_string(), opt_str(&report.campaign_hash));
    map.insert("batch_hash".to_string(), opt_str(&report.batch_hash));
    map.insert("sender_domain".to_string(), opt_str(&report.sender_domain));
    map.insert(
        "expected_rows".to_string(),
        match report.expected_rows {
            Some(rows) => Value::from(rows),
            None => Value::Null,
        },
    );
    map.insert("matched_rows".to_string(), Value::from(report.matched_rows));
    map.insert(
        "rows_with_recipient_key".to_string(),
        Value::from(report.rows_with_recipient_key),
    );
    map.insert(
        "rows_with_trace_key".to_string(),
        Value::from(report.rows_with_trace_key),
    );
    map.insert("invalid_rows".to_string(), Value::from(report.invalid_rows));
    map.insert("manifest_sha256".to_string(), opt_str(&report.manifest_sha256));
    map.insert(
        "raw_payload_returned".to_string(),
        Value::Bool(report.raw_payload_returned),
    );
    map.insert(
        "warnings".to_string(),
        Value::Array(report.warnings.iter().cloned().map(Value::String).collect()),
    );
    serde_json::to_string(&Value::Object(map)).expect("serialize report")
}

fn request(
    campaign_id: &str,
    sender_domain: Option<&str>,
    manifest: Option<&str>,
) -> OciLedgerPreflightRequest {
    OciLedgerPreflightRequest {
        campaign_id: campaign_id.to_string(),
        batch_id: "batch-private".to_string(),
        expected_rows: 1,
        sender_domain: sender_domain.map(str::to_string),
        expected_manifest_sha256: manifest.map(str::to_string),
    }
}

#[test]
fn preflight_verifies_matching_private_ledger_rows_without_raw_output() {
    let lines = vec![
        LedgerLine::Text(format!(
            "{{\"campaign_hash\":\"{}\",\"batch_hash\":\"{}\",\"sender\":\"news@example.invalid\",\"recipient_hash\":\"{}\",\"message_id_hash\":\"{}\"}}",
            ledger_hash("campaign-private"),
            ledger_hash("batch-private"),
            ledger_hash("person@example.invalid"),
            ledger_hash("msg-1")
        )),
        LedgerLine::Text(
            "{\"campaign_id\":\"other\",\"batch_id\":\"batch-private\",\"sender\":\"news@example.invalid\",\"recipient\":\"person@example.invalid\",\"message_id\":\"msg-2\"}".to_string(),
        ),
    ];
    let config = OciSendLedgerConfig {
        path: Some("target/interspire-oci-ledger-tests/valid.jsonl".to_string()),
        required_for_sends: true,
    };
    let req = request("campaign-private", Some("example.invalid"), None);
    let report = verify_preflight(&config, Some(&req), 1, None, Some(&lines));
    let body = report_body(&report);

    assert!(report.verified);
    assert_eq!(report.matched_rows, 1);
    assert_eq!(report.rows_with_recipient_key, 1);
    assert_eq!(report.rows_with_trace_key, 1);
    assert!(!report.raw_payload_returned);
    assert!(!body.contains("person@example.invalid"));
    assert!(!body.contains("campaign-private"));
}

#[test]
fn preflight_blocks_missing_rows_when_required() {
    let lines: Vec<LedgerLine> = Vec::new();
    let config = OciSendLedgerConfig {
        path: Some("target/interspire-oci-ledger-tests/missing.jsonl".to_string()),
        required_for_sends: true,
    };
    let req = request("campaign-private", Some("example.invalid"), None);
    let report = verify_preflight(&config, Some(&req), 1, None, Some(&lines));

    assert!(!report.verified);
    assert!(report
        .warnings
        .iter()
        .any(|warning| warning.contains("expected 1 rows")));
}

#[test]
fn preflight_blocks_invalid_manifest_without_echoing_raw_input() {
    let config = OciSendLedgerConfig {
        path: Some("/unused/private-ledger.jsonl".to_string()),
        required_for_sends: true,
    };
    let req = request("7", Some("example.invalid"), Some("private-manifest-token"));
    let report = verify_preflight(&config, Some(&req), 1, Some(7), None);
    let body = report_body(&report);

    assert!(!report.verified);
    assert!(report.sender_domain.is_none());
    assert!(report.manifest_sha256.is_none());
    assert!(!body.contains("private-manifest-token"));
}
