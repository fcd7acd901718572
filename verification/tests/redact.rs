use interspire_mcp::redact::{email_hash, redact_email, redact_sensitive_text};

#[test]
fn redacts_email_without_hiding_domain_context() {
    assert_eq!(redact_email("Reporter@Example.COM"), "R***@example.com");
}

#[test]
fn redacts_email_lists_without_leaking_second_address() {
    let output = redact_email("alice@example.com,bob@example.net");

    assert!(!output.contains("alice"));
    assert!(!output.contains("bob"));
    assert!(!output.contains("example.com"));
    assert!(!output.contains("example.net"));
    assert_eq!(output, "[redacted-email]");
}

#[test]
fn redacts_plus_addressed_emails_without_leaking_localpart() {
    let output = redact_sensitive_text("recipient alice+news@example.com queued");

    assert!(!output.contains("alice"));
    assert!(!output.contains("+news"));
    assert_eq!(output, "recipient [redacted-email] queued");
}

#[test]
fn redacts_known_email_fields_with_invalid_internal_addresses() {
    assert_eq!(redact_email("staff@internal"), "[redacted-email]");
    assert_eq!(redact_email("staff@localhost"), "[redacted-email]");
    assert_eq!(redact_email("staff@@example.com"), "[redacted-email]");
}

#[test]
fn hashes_email_stably_without_returning_email() {
    let hash = email_hash("person@example.com");
    assert_eq!(hash, email_hash("PERSON@example.com"));
    assert!(!hash.contains("person"));
    assert_eq!(hash.len(), 24);
}

#[test]
fn redacts_sensitive_markers() {
    let output = redact_sensitive_text("smtp_password=secret cookie=session usertoken=abc");
    assert!(!output.contains("secret"));
    assert!(!output.contains("session"));
    assert!(!output.contains("abc"));
}

#[test]
fn redacts_separated_sensitive_marker_values() {
    let output = redact_sensitive_text(
        r#"password: hunter2 token abc123 cookie = session-value api_key = key-secret "api_token": "quoted-secret""#,
    );

    assert!(!output.contains("hunter2"));
    assert!(!output.contains("abc123"));
    assert!(!output.contains("session-value"));
    assert!(!output.contains("key-secret"));
    assert!(!output.contains("quoted-secret"));
    assert!(output.matches("[redacted]").count() >= 8);
}

#[test]
fn redacts_free_text_email_urls_and_hosts() {
    let output = redact_sensitive_text(
        "request failed for alice@example.com at https://iem.example.net/admin/index.php?Page=Lists; dns iem.example.net:443",
    );

    assert!(!output.contains("alice"));
    assert!(!output.contains("example.com"));
    assert!(!output.contains("https://"));
    assert!(!output.contains("iem.example.net"));
    assert!(!output.contains(":443"));
    assert!(output.contains("[redacted-email]"));
    assert!(output.contains("[redacted-url]"));
    assert!(output.contains("[redacted-host]"));
}

#[test]
fn redacts_punctuation_separated_email_tokens() {
    let output =
        redact_sensitive_text("to alice@example.com;bob@example.net, cc c@example.org");

    assert!(!output.contains("alice"));
    assert!(!output.contains("bob"));
    assert!(!output.contains("example.net"));
    assert_eq!(output.matches("[redacted-email]").count(), 3);
}
