use interspire_mcp::redact::{email_hash, redact_email, redact_sensitive_text};

#[test]
fn email_field_without_at_sign_is_fully_redacted() {
    assert_eq!(redact_email("not an address"), "[redacted]");
}

#[test]
fn email_field_is_trimmed_before_redaction() {
    assert_eq!(redact_email("  Bob@Example.ORG \n"), "B***@example.org");
}

#[test]
fn email_field_with_ip_or_port_domain_keeps_domain() {
    assert_eq!(redact_email("ops@10.0.0.1"), "o***@10.0.0.1");
    assert_eq!(
        redact_email("a@Host.Example.com:8443"),
        "a***@host.example.com:8443"
    );
    assert_eq!(redact_email("@example.com"), "[redacted-email]");
}

#[test]
fn email_hash_matches_sha256_prefix() {
    assert_eq!(email_hash("person@example.com"), "542d240129883c019e106e3b");
    assert_eq!(email_hash("  Person@Example.com "), "542d240129883c019e106e3b");
}

#[test]
fn ip_addresses_are_host_tokens() {
    assert_eq!(
        redact_sensitive_text("peer 10.0.0.1 and fe80::abcd up"),
        "peer [redacted-host] and [redacted-host] up"
    );
    assert_eq!(
        redact_sensitive_text("mapped ::ffff:192.0.2.1 seen"),
        "mapped [redacted-host] seen"
    );
}

#[test]
fn non_addresses_are_kept() {
    assert_eq!(
        redact_sensitive_text("octets 192.168.001.1 and v1.2 stay"),
        "octets 192.168.001.1 and v1.2 stay"
    );
    assert_eq!(redact_sensitive_text("count 256.1.1.1"), "count 256.1.1.1");
}

#[test]
fn url_trailing_punctuation_is_kept() {
    assert_eq!(
        redact_sensitive_text("see (https://x.example.com/a)."),
        "see ([redacted-url])."
    );
    assert_eq!(
        redact_sensitive_text("a http://one.test,http://two.test b"),
        "a [redacted-url] b"
    );
}

#[test]
fn text_without_markers_keeps_its_spacing() {
    assert_eq!(redact_sensitive_text("hello   world\tagain"), "hello   world\tagain");
}

#[test]
fn marker_words_and_their_values_are_redacted() {
    assert_eq!(
        redact_sensitive_text("password  is   x"),
        "[redacted] [redacted] x"
    );
    assert_eq!(
        redact_sensitive_text("Cookie: \"abc\""),
        "[redacted] \"[redacted]\""
    );
}

#[test]
fn separator_words_are_kept_between_marker_and_value() {
    assert_eq!(
        redact_sensitive_text("token = => abc"),
        "[redacted] = => [redacted]"
    );
}

#[test]
fn marker_with_attached_value_does_not_redact_next_word() {
    assert_eq!(
        redact_sensitive_text("token=abc next"),
        "[redacted] next"
    );
}

#[test]
fn redacted_text_has_no_url_prefixes_and_is_stable() {
    let input = "mail alice@example.com via https://mx.example.net:8443/path, host mx.example.net:25";
    let output = redact_sensitive_text(input);
    assert!(!output.contains("http://"));
    assert!(!output.contains("https://"));
    assert_eq!(redact_sensitive_text(&output), output);
}

#[test]
fn no_secret_marker_survives_in_any_case() {
    let text = "PassWord: hunter2 then Api_Key=abc and SMTP_PASSWORD x Cookie yum; \
                License-key 123 USERtoken t bounce_password b passwd p Token z";
    let out = redact_sensitive_text(text).to_lowercase();
    for marker in [
        "password",
        "passwd",
        "usertoken",
        "token",
        "cookie",
        "license",
        "api_key",
        "smtp_password",
        "bounce_password",
    ] {
        assert!(!out.contains(marker), "{marker} survived in {out}");
    }
}

#[test]
fn redacting_twice_is_redacting_once() {
    let input = "password:  hunter2\tmail bob@example.org at http://x.example.com/a) token=t";
    let once = redact_sensitive_text(input);
    assert_eq!(redact_sensitive_text(&once), once);
}

#[test]
fn redacting_a_redacted_email_keeps_it() {
    for value in [" Reporter@Example.COM ", "a@MX.Example.net:25", "b@2001:DB8::A:1", "c@10.0.0.1", "d@Host-1.Example.ORG."] {
        let once = redact_email(value);
        assert_eq!(redact_email(&once), once, "{value}");
    }
    // a domain that only becomes `www.` in lower case loses a label
    assert_eq!(redact_email("a@WWW.com"), "a***@www.com");
    assert_eq!(redact_email("a***@www.com"), "[redacted-email]");
}
