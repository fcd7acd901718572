//! The OCI send-ledger preflight: checks a request, then counts the private
//! ledger rows (JSON objects, one per line) that match it, and reports only
//! aggregates and hashes.

use vstd::prelude::*;
use crate::response::oci_ledger::{
    blocked_report, short_hash_chars, short_hash_of, skipped_report, OciLedgerPreflightReport,
    OciLedgerPreflightRequest, PreflightReportView, PreflightRequestView,
};
use crate::redact::{redact_sensitive_text, redacted_text};
use crate::text::{
    all_hexdigits, ascii_lower, contains_char, copy_range, decimal, extend_chars, extend_str,
    find_chars, from_chars, is_alnum, is_ascii_alphanumeric, is_ascii_hexdigit, is_control,
    is_control_char, push_decimal, split_once, split_once_chars, to_ascii_lower, to_chars, trim,
    trim_chars,
};
use vstd::utf8::{encode_scalar, encode_utf8};

verus! {

broadcast use crate::text::lemma_char_vec_deep_view;

/// Where the send ledger lives and whether guarded sends require it.
#[derive(Debug, Clone)]
pub struct OciSendLedgerConfig {
    pub path: Option<String>,
    pub required_for_sends: bool,
}

/// One top-level member of a JSON object: its key and, when its value is a
/// JSON string, that string.
#[derive(Debug)]
pub struct JsonField {
    pub key: String,
    pub text: Option<String>,
}

impl DeepView for JsonField {
    type V = (Seq<char>, Option<Seq<char>>);

    open spec fn deep_view(&self) -> (Seq<char>, Option<Seq<char>>) {
        (self.key@, self.text.deep_view())
    }
}

/// One line of the ledger file, or a line that could not be read.
#[derive(Debug)]
pub enum LedgerLine {
    Unreadable,
    Text(String),
}

impl DeepView for LedgerLine {
    type V = Option<Seq<char>>;

    open spec fn deep_view(&self) -> Option<Seq<char>> {
        match self {
            LedgerLine::Unreadable => None,
            LedgerLine::Text(t) => Some(t@),
        }
    }
}

/// What `serde_json::from_str::<serde_json::Value>` makes of a line: `None`
/// when it is not JSON, `Some(None)` when it is JSON but not an object, and
/// otherwise the object's members in the map's iteration order, each with
/// its string value when it has one.
pub uninterp spec fn json_object_members(line: Seq<char>) -> Option<
    Option<Seq<(Seq<char>, Option<Seq<char>>)>>,
>;

/// `serde_json::from_str::<serde_json::Value>`: the contract claims only that
/// the result, with each member's value reduced to its string (when it is a
/// JSON string), is the named parse of `line`; JSON grammar is not stated.
#[verifier::external_body]
fn parse_json_object(line: &str) -> (r: Option<Option<Vec<JsonField>>>)
    ensures
        r.deep_view() == json_object_members(line@),
{
    match serde_json::from_str::<serde_json::Value>(line) {
        Err(_) => None,
        Ok(serde_json::Value::Object(map)) => Some(Some(map.into_iter().map(|(key, value)| JsonField {
            key,
            text: match value {
                serde_json::Value::String(text) => Some(text),
                _ => None,
            },
        }).collect())),
        Ok(_) => Some(None),
    }
}

// ---------------------------------------------------------------------------
// Request validation
// ---------------------------------------------------------------------------

/// A campaign or batch identifier: non-empty after trimming, at most 200
/// UTF-8 bytes, no control characters, no `/` or `\`.
pub open spec fn valid_identifier(value: Seq<char>) -> bool {
    let t = trim(value);
    &&& t.len() > 0
    &&& encode_utf8(t).len() <= 200
    &&& forall|i: int| 0 <= i < t.len() ==> !is_control(#[trigger] t[i])
    &&& !t.contains('/')
    &&& !t.contains('\\')
}

pub open spec fn is_domain_char(c: char) -> bool {
    is_alnum(c) || c == '.' || c == '-'
}

/// A domain: after trimming, non-empty, at most 253 UTF-8 bytes of ASCII
/// letters, digits, `.` and `-`, with a dot that is neither first nor last.
pub open spec fn valid_domain(value: Seq<char>) -> bool {
    let t = trim(value);
    &&& t.len() > 0
    &&& encode_utf8(t).len() <= 253
    &&& forall|i: int| 0 <= i < t.len() ==> is_domain_char(#[trigger] t[i])
    &&& t.contains('.')
    &&& t[0] != '.'
    &&& t.last() != '.'
}

/// A SHA-256 in hexadecimal: 64 bytes of hexadecimal digits after trimming.
pub open spec fn valid_sha256(value: Seq<char>) -> bool {
    let t = trim(value);
    encode_utf8(t).len() == 64 && all_hexdigits(t)
}

proof fn lemma_scalar_len(c: char)
    ensures
        encode_scalar(c as u32).len() == if (c as u32) <= 0x7F {
            1int
        } else if (c as u32) <= 0x7FF {
            2int
        } else if (c as u32) <= 0xFFFF {
            3int
        } else {
            4int
        },
{
    let v = c as u32;
    assert(!(0xD800 <= v <= 0xDFFF));
}

proof fn lemma_encode_utf8_skip(s: Seq<char>, k: int)
    requires
        0 <= k <= s.len(),
    ensures
        encode_utf8(s.skip(k)).len() <= encode_utf8(s).len(),
    decreases k,
{
    if k > 0 {
        lemma_encode_utf8_skip(s.drop_first(), k - 1);
        assert(s.drop_first().skip(k - 1) == s.skip(k));
    } else {
        assert(s.skip(0) == s);
    }
}

/// The UTF-8 length of `chars` when it is at most `cap` bytes.
fn utf8_len_upto(chars: &[char], cap: usize) -> (r: Option<usize>)
    requires
        cap <= 1000,
    ensures
        r matches Some(k) ==> (k == encode_utf8(chars@).len() && k <= cap),
        r is None ==> encode_utf8(chars@).len() > cap,
{
    let mut i: usize = chars.len();
    let mut total: usize = 0;
    assert(chars@.skip(i as int) == Seq::<char>::empty());
    while i > 0
        invariant
            i <= chars@.len(),
            total <= cap,
            total == encode_utf8(chars@.skip(i as int)).len(),
        decreases i,
    {
        let v: u32 = chars[i - 1] as u32;
        let w: usize = if v <= 0x7F {
            1
        } else if v <= 0x7FF {
            2
        } else if v <= 0xFFFF {
            3
        } else {
            4
        };
        assert(chars@.skip(i - 1).drop_first() == chars@.skip(i as int));
        assert(chars@.skip(i - 1)[0] == chars@[i - 1]);
        proof {
            lemma_scalar_len(chars@[i - 1]);
        }
        assert(encode_utf8(chars@.skip(i - 1)).len() == w + total);
        if w > cap - total {
            proof {
                lemma_encode_utf8_skip(chars@, i - 1);
            }
            return None;
        }
        total = total + w;
        i = i - 1;
    }
    assert(chars@.skip(0) == chars@);
    Some(total)
}

fn valid_identifier_exec(value: &[char]) -> (b: bool)
    ensures
        b == valid_identifier(value@),
{
    let t = trim_chars(value);
    if t.len() == 0 || utf8_len_upto(t.as_slice(), 200).is_none() {
        return false;
    }
    let n = t.len();
    for i in 0..n
        invariant
            n == t@.len(),
            t@ == trim(value@),
            t@.len() > 0,
            encode_utf8(t@).len() <= 200,
            forall|k: int| 0 <= k < i ==> !is_control(#[trigger] t@[k]),
    {
        if is_control_char(t[i]) {
            return false;
        }
    }
    !contains_char(t.as_slice(), '/') && !contains_char(t.as_slice(), '\\')
}

fn valid_domain_exec(value: &[char]) -> (b: bool)
    ensures
        b == valid_domain(value@),
{
    let t = trim_chars(value);
    let n = t.len();
    if n == 0 || utf8_len_upto(t.as_slice(), 253).is_none() {
        return false;
    }
    for i in 0..n
        invariant
            n == t@.len(),
            t@ == trim(value@),
            n > 0,
            encode_utf8(t@).len() <= 253,
            forall|k: int| 0 <= k < i ==> is_domain_char(#[trigger] t@[k]),
    {
        let c = t[i];
        if !(is_ascii_alphanumeric(c) || c == '.' || c == '-') {
            assert(!is_domain_char(t@[i as int]));
            return false;
        }
    }
    contains_char(t.as_slice(), '.') && t[0] != '.' && t[n - 1] != '.'
}

fn valid_sha256_exec(value: &[char]) -> (b: bool)
    ensures
        b == valid_sha256(value@),
{
    let t = trim_chars(value);
    match utf8_len_upto(t.as_slice(), 64) {
        Some(k) => {
            if k != 64 {
                return false;
            }
        },
        None => {
            return false;
        },
    }
    all_hexdigits_exec(t.as_slice())
}

/// An ASCII letter or digit.
pub open spec fn ascii_alnum(c: char) -> bool {
    ('a' <= c && c <= 'z') || ('A' <= c && c <= 'Z') || ('0' <= c && c <= '9')
}

proof fn lemma_ascii_utf8_len(s: Seq<char>)
    requires
        forall|i: int| 0 <= i < s.len() ==> (#[trigger] s[i] as u32) <= 0x7F,
    ensures
        encode_utf8(s).len() == s.len(),
    decreases s.len(),
{
    if s.len() > 0 {
        lemma_scalar_len(s[0]);
        assert forall|i: int| 0 <= i < s.drop_first().len() implies (#[trigger] s.drop_first()[i]
            as u32) <= 0x7F by {
            assert(s.drop_first()[i] == s[i + 1]);
        }
        lemma_ascii_utf8_len(s.drop_first());
    }
}

/// Every domain name of at most 253 characters made of ASCII letters,
/// digits, dots and hyphens, with a dot, starting and ending with a letter
/// or digit, is a valid sender domain; so is it with whitespace around it.
/// Hyphenated names such as `mail-out.example.com` are among them.
pub proof fn law_dns_names_are_valid_domains(d: Seq<char>)
    requires
        0 < d.len() <= 253,
        forall|i: int| 0 <= i < d.len() ==> ascii_alnum(#[trigger] d[i]) || d[i] == '.' || d[i] == '-',
        ascii_alnum(d[0]),
        ascii_alnum(d.last()),
        d.contains('.'),
    ensures
        valid_domain(d),
{
    crate::email_laws::lemma_trim_fixed(d);
    assert forall|i: int| 0 <= i < d.len() implies (#[trigger] d[i] as u32) <= 0x7F by {
        assert(ascii_alnum(d[i]) || d[i] == '.' || d[i] == '-');
    }
    lemma_ascii_utf8_len(d);
}

/// A valid sender domain, once trimmed, is made only of ASCII letters,
/// digits, dots and hyphens, holds a dot, neither starts nor ends with one,
/// and is at most 253 characters long.
pub proof fn law_valid_domains_are_dns_names(d: Seq<char>)
    requires
        valid_domain(d),
    ensures
        ({
            let t = trim(d);
            &&& 0 < t.len() <= 253
            &&& forall|i: int| 0 <= i < t.len() ==> ascii_alnum(#[trigger] t[i]) || t[i] == '.' || t[i] == '-'
            &&& t.contains('.')
            &&& t[0] != '.'
            &&& t.last() != '.'
        }),
{
    let t = trim(d);
    assert forall|i: int| 0 <= i < t.len() implies ascii_alnum(#[trigger] t[i]) || t[i] == '.' || t[i] == '-' by {
        assert(is_domain_char(t[i]));
    }
    lemma_ascii_utf8_len(t);
}

/// Every identifier of 1 to 200 printable ASCII characters, other than `/`
/// and `\\`, that neither starts nor ends with a space, is a valid campaign
/// or batch identifier.
pub proof fn law_printable_identifiers_are_valid(v: Seq<char>)
    requires
        0 < v.len() <= 200,
        forall|i: int| 0 <= i < v.len() ==> ' ' <= #[trigger] v[i] && v[i] <= '~' && v[i] != '/' && v[i] != '\\',
        v[0] != ' ',
        v.last() != ' ',
    ensures
        valid_identifier(v),
{
    crate::email_laws::lemma_trim_fixed(v);
    assert forall|i: int| 0 <= i < v.len() implies (#[trigger] v[i] as u32) <= 0x7F by {}
    lemma_ascii_utf8_len(v);
}

/// An identifier holding `/` or `\\`, or longer than 200 characters once
/// trimmed, is not valid.
pub proof fn law_identifiers_with_slashes_or_too_long_are_invalid(v: Seq<char>)
    ensures
        trim(v).contains('/') ==> !valid_identifier(v),
        trim(v).contains('\\') ==> !valid_identifier(v),
        trim(v).len() > 200 ==> !valid_identifier(v),
{
    lemma_utf8_len_at_least(trim(v));
}

proof fn lemma_utf8_len_at_least(s: Seq<char>)
    ensures
        encode_utf8(s).len() >= s.len(),
    decreases s.len(),
{
    if s.len() > 0 {
        lemma_scalar_len(s[0]);
        lemma_utf8_len_at_least(s.drop_first());
    }
}

/// Exactly the texts that are 64 hexadecimal digits (either case) once
/// trimmed are valid SHA-256 values.
pub proof fn law_valid_sha256_is_64_hex_digits(v: Seq<char>)
    ensures
        valid_sha256(v) <==> (trim(v).len() == 64 && forall|i: int|
            0 <= i < trim(v).len() ==> ('0' <= #[trigger] trim(v)[i] && trim(v)[i] <= '9') || ('a'
                <= trim(v)[i] && trim(v)[i] <= 'f') || ('A' <= trim(v)[i] && trim(v)[i] <= 'F')),
{
    let t = trim(v);
    lemma_utf8_len_at_least(t);
    if forall|i: int| 0 <= i < t.len() ==> ('0' <= #[trigger] t[i] && t[i] <= '9') || ('a' <= t[i]
        && t[i] <= 'f') || ('A' <= t[i] && t[i] <= 'F') {
        assert forall|i: int| 0 <= i < t.len() implies (#[trigger] t[i] as u32) <= 0x7F by {
            assert(('0' <= t[i] && t[i] <= '9') || ('a' <= t[i] && t[i] <= 'f') || ('A' <= t[i]
                && t[i] <= 'F'));
        }
        lemma_ascii_utf8_len(t);
    }
    if valid_sha256(v) {
        assert forall|i: int| 0 <= i < t.len() implies (#[trigger] t[i] as u32) <= 0x7F by {
            assert(crate::text::is_hexdigit(t[i]));
        }
        lemma_ascii_utf8_len(t);
    }
}

/// A ledger identifier matches the requested one when it names it (spaces
/// around either aside), or when its hash field holds the requested
/// identifier's 20-character short hash, in either case and with spaces
/// around it.
pub proof fn law_identifier_matches_by_value_or_hash(
    filter: Seq<char>,
    raw_value: Option<Seq<char>>,
    hash_value: Option<Seq<char>>,
)
    ensures
        (raw_value matches Some(v) && trim(v) == trim(filter)) ==> matches_identifier(
            filter,
            raw_value,
            hash_value,
        ),
        (hash_value matches Some(h) && trim(h).len() == 20 && ascii_lower(trim(h)) == short_hash_of(
            filter,
        )) ==> matches_identifier(filter, raw_value, hash_value),
{
    crate::text::lemma_trim_idempotent(filter);
    if let Some(h) = hash_value {
        let t = trim(h);
        if t.len() == 20 && ascii_lower(t) == short_hash_of(filter) {
            let f = ascii_lower(trim(filter));
            crate::digest::law_hex_encoding_decodes(
                crate::digest::sha256(encode_utf8(f)).take(10),
            );
            assert forall|i: int| 0 <= i < t.len() implies crate::text::is_hexdigit(#[trigger] t[i]) by {
                crate::email_laws::lemma_lower_char(t[i]);
                assert(ascii_lower(t)[i] == crate::text::lower_char(t[i]));
                assert(crate::digest::is_lower_hex_digit(ascii_lower(t)[i]));
            }
            assert forall|i: int| 0 <= i < t.len() implies (#[trigger] t[i] as u32) <= 0x7F by {
                assert(crate::text::is_hexdigit(t[i]));
            }
            lemma_ascii_utf8_len(t);
            assert(short_hash_of(trim(filter)) == short_hash_of(filter));
        }
    }
}

// ---------------------------------------------------------------------------
// Ledger rows
// ---------------------------------------------------------------------------

/// The value of the first member named `key`, if any.
pub open spec fn member(fields: Seq<(Seq<char>, Option<Seq<char>>)>, key: Seq<char>) -> Option<
    Option<Seq<char>>,
>
    decreases fields.len(),
{
    if fields.len() == 0 {
        None
    } else if fields[0].0 == key {
        Some(fields[0].1)
    } else {
        member(fields.drop_first(), key)
    }
}

/// The string value of the member named `key` (`value.get(key)?.as_str()`).
pub open spec fn string_member(fields: Seq<(Seq<char>, Option<Seq<char>>)>, key: Seq<char>) -> Option<
    Seq<char>,
> {
    match member(fields, key) {
        Some(Some(s)) => Some(s),
        _ => None,
    }
}

/// The string value of the first of `keys` that names a string member.
pub open spec fn string_any(fields: Seq<(Seq<char>, Option<Seq<char>>)>, keys: Seq<Seq<char>>) -> Option<
    Seq<char>,
>
    decreases keys.len(),
{
    if keys.len() == 0 {
        None
    } else {
        match string_member(fields, keys[0]) {
            Some(s) => Some(s),
            None => string_any(fields, keys.drop_first()),
        }
    }
}

/// Some of `keys` names a string member that is not blank.
pub open spec fn has_any_string(
    fields: Seq<(Seq<char>, Option<Seq<char>>)>,
    keys: Seq<Seq<char>>,
) -> bool {
    match string_any(fields, keys) {
        Some(s) => trim(s).len() > 0,
        None => false,
    }
}

/// A hash field as the ledger may write it: 20 hexadecimal characters are
/// taken as a short hash already, anything else is hashed.
pub open spec fn normalized_hash(value: Seq<char>) -> Seq<char> {
    let t = trim(value);
    if encode_utf8(t).len() == 20 && all_hexdigits(t) {
        ascii_lower(t)
    } else {
        short_hash_of(t)
    }
}

/// A ledger identifier matches the requested one, by raw value or by hash.
pub open spec fn matches_identifier(
    filter: Seq<char>,
    raw_value: Option<Seq<char>>,
    hash_value: Option<Seq<char>>,
) -> bool {
    let f = trim(filter);
    ||| (raw_value matches Some(v) && trim(v) == f)
    ||| (hash_value matches Some(h) && normalized_hash(h) == short_hash_of(f))
}

/// A ledger manifest digest matches the requested one, ignoring ASCII case.
pub open spec fn matches_sha256(filter: Seq<char>, raw_value: Option<Seq<char>>) -> bool {
    match raw_value {
        Some(v) => ascii_lower(trim(v)) == ascii_lower(trim(filter)),
        None => false,
    }
}

/// The lower-cased domain of an address `local@domain`, when it is valid.
pub open spec fn email_domain(value: Seq<char>) -> Option<Seq<char>> {
    match split_once(trim(value), '@') {
        Some((_local, domain)) => if valid_domain(domain) {
            Some(ascii_lower(trim(domain)))
        } else {
            None
        },
        None => None,
    }
}

/// The lower-cased domain of an address or of a bare domain.
pub open spec fn domain_from_address_or_domain(value: Seq<char>) -> Option<Seq<char>> {
    if value.contains('@') {
        email_domain(value)
    } else if valid_domain(value) {
        Some(ascii_lower(trim(value)))
    } else {
        None
    }
}

pub open spec fn campaign_id_keys() -> Seq<Seq<char>> {
    seq!["campaign_id"@, "campaignId"@]
}

pub open spec fn campaign_hash_keys() -> Seq<Seq<char>> {
    seq!["campaign_hash"@, "campaignHash"@, "campaign_id_hash"@, "campaignIdHash"@]
}

pub open spec fn batch_id_keys() -> Seq<Seq<char>> {
    seq!["batch_id"@, "batchId"@]
}

pub open spec fn batch_hash_keys() -> Seq<Seq<char>> {
    seq!["batch_hash"@, "batchHash"@, "batch_id_hash"@, "batchIdHash"@]
}

pub open spec fn sender_domain_keys() -> Seq<Seq<char>> {
    seq!["sender_domain"@, "senderDomain"@]
}

pub open spec fn sender_keys() -> Seq<Seq<char>> {
    seq!["sender"@, "approved_sender"@, "approvedSender"@]
}

pub open spec fn manifest_keys() -> Seq<Seq<char>> {
    seq!["manifest_sha256"@, "manifestSha256"@]
}

pub open spec fn recipient_keys() -> Seq<Seq<char>> {
    seq![
        "recipient_id"@,
        "recipientId"@,
        "recipient_id_hash"@,
        "recipientIdHash"@,
        "recipient"@,
        "recipient_email"@,
        "recipientEmail"@,
        "recipient_address_hash"@,
        "recipientAddressHash"@,
        "recipient_hash"@,
        "recipientHash"@,
    ]
}

pub open spec fn trace_keys() -> Seq<Seq<char>> {
    seq![
        "message_id"@,
        "messageId"@,
        "provider_message_id"@,
        "providerMessageId"@,
        "message_id_hash"@,
        "messageIdHash"@,
        "correlation_id"@,
        "correlationId"@,
        "correlation_id_hash"@,
        "correlationIdHash"@,
        "header_value_hash"@,
        "headerValueHash"@,
    ]
}

/// The sender domain a row states: from `sender_domain`, else from the
/// address in `sender`.
pub open spec fn row_sender_domain(fields: Seq<(Seq<char>, Option<Seq<char>>)>) -> Option<
    Seq<char>,
> {
    let from_domain = match string_any(fields, sender_domain_keys()) {
        Some(v) => domain_from_address_or_domain(v),
        None => None,
    };
    match from_domain {
        Some(d) => Some(d),
        None => match string_any(fields, sender_keys()) {
            Some(v) => email_domain(v),
            None => None,
        },
    }
}

/// A ledger row belongs to the requested campaign, batch, sender domain and
/// manifest.
pub open spec fn row_matches_request(
    request: PreflightRequestView,
    fields: Seq<(Seq<char>, Option<Seq<char>>)>,
) -> bool {
    &&& matches_identifier(
        request.campaign_id,
        string_any(fields, campaign_id_keys()),
        string_any(fields, campaign_hash_keys()),
    )
    &&& matches_identifier(
        request.batch_id,
        string_any(fields, batch_id_keys()),
        string_any(fields, batch_hash_keys()),
    )
    &&& match request.sender_domain {
        Some(d) => row_sender_domain(fields) == Some(ascii_lower(trim(d))),
        None => true,
    }
    &&& match request.expected_manifest_sha256 {
        Some(m) => matches_sha256(m, string_any(fields, manifest_keys())),
        None => true,
    }
}

/// Dropping an optional filter (the sender domain, the manifest or both)
/// never turns a matching row into one that does not match.
pub proof fn law_dropping_a_filter_keeps_matches(
    q1: PreflightRequestView,
    q2: PreflightRequestView,
    fields: Seq<(Seq<char>, Option<Seq<char>>)>,
)
    requires
        q2.campaign_id == q1.campaign_id,
        q2.batch_id == q1.batch_id,
        q2.sender_domain is None || q2.sender_domain == q1.sender_domain,
        q2.expected_manifest_sha256 is None || q2.expected_manifest_sha256
            == q1.expected_manifest_sha256,
    ensures
        row_matches_request(q1, fields) ==> row_matches_request(q2, fields),
{
}

/// What one ledger line contributes to the counts.
#[derive(Debug, Clone, Copy, PartialEq, Eq)]
pub enum LineOutcome {
    Blank,
    Invalid,
    Unmatched,
    Matched { recipient: bool, trace: bool },
}

/// What a non-blank line contributes, given what the JSON parse made of it.
pub open spec fn parsed_row_outcome(
    parsed: Option<Option<Seq<(Seq<char>, Option<Seq<char>>)>>>,
    request: PreflightRequestView,
) -> LineOutcome {
    match parsed {
        Some(Some(fields)) => if row_matches_request(request, fields) {
            LineOutcome::Matched {
                recipient: has_any_string(fields, recipient_keys()),
                trace: has_any_string(fields, trace_keys()),
            }
        } else {
            LineOutcome::Unmatched
        },
        _ => LineOutcome::Invalid,
    }
}

pub open spec fn line_outcome(line: Option<Seq<char>>, request: PreflightRequestView) -> LineOutcome {
    match line {
        None => LineOutcome::Invalid,
        Some(text) => if trim(text).len() == 0 {
            LineOutcome::Blank
        } else {
            parsed_row_outcome(json_object_members(text), request)
        },
    }
}

/// Row counts over a ledger.
pub struct Tally {
    pub matched: nat,
    pub recipient: nat,
    pub trace: nat,
    pub invalid: nat,
}

pub open spec fn tally_step(t: Tally, outcome: LineOutcome) -> Tally {
    match outcome {
        LineOutcome::Invalid => Tally { invalid: t.invalid + 1, ..t },
        LineOutcome::Matched { recipient, trace } => Tally {
            matched: t.matched + 1,
            recipient: t.recipient + if recipient {
                1nat
            } else {
                0nat
            },
            trace: t.trace + if trace {
                1nat
            } else {
                0nat
            },
            invalid: t.invalid,
        },
        _ => t,
    }
}

/// The counts over `lines`.
pub open spec fn tally(lines: Seq<Option<Seq<char>>>, request: PreflightRequestView) -> Tally
    decreases lines.len(),
{
    if lines.len() == 0 {
        Tally { matched: 0, recipient: 0, trace: 0, invalid: 0 }
    } else {
        tally_step(tally(lines.drop_last(), request), line_outcome(lines.last(), request))
    }
}

pub open spec fn count_warning(t: Tally, expected_rows: u64) -> Seq<char> {
    "OCI send ledger matched "@ + decimal(t.matched) + " rows but expected "@ + decimal(
        expected_rows as nat,
    ) + " rows"@
}

/// The problems the counts show, before redaction.
pub open spec fn ledger_warnings(t: Tally, expected_rows: u64) -> Seq<Seq<char>> {
    (if t.matched != expected_rows {
        seq![count_warning(t, expected_rows)]
    } else {
        seq![]
    }) + (if t.recipient != t.matched {
        seq!["one or more matched OCI send ledger rows lack a recipient key or recipient hash"@]
    } else {
        seq![]
    }) + (if t.trace != t.matched {
        seq!["one or more matched OCI send ledger rows lack a message or correlation key"@]
    } else {
        seq![]
    }) + (if t.invalid > 0 {
        seq!["one or more OCI send ledger rows were invalid JSON objects"@]
    } else {
        seq![]
    })
}

pub open spec fn normalized_option(value: Option<Seq<char>>) -> Option<Seq<char>> {
    match value {
        Some(v) => Some(ascii_lower(trim(v))),
        None => None,
    }
}

/// The report over a ledger that could be read.
pub open spec fn ledger_report(
    required: bool,
    request: PreflightRequestView,
    lines: Seq<Option<Seq<char>>>,
) -> PreflightReportView {
    let t = tally(lines, request);
    let w = ledger_warnings(t, request.expected_rows);
    PreflightReportView {
        required,
        configured: true,
        requested: true,
        verified: w.len() == 0,
        campaign_hash: Some(short_hash_of(request.campaign_id)),
        batch_hash: Some(short_hash_of(request.batch_id)),
        sender_domain: normalized_option(request.sender_domain),
        expected_rows: Some(request.expected_rows),
        matched_rows: t.matched as u64,
        rows_with_recipient_key: t.recipient as u64,
        rows_with_trace_key: t.trace as u64,
        invalid_rows: t.invalid as u64,
        manifest_sha256: normalized_option(request.expected_manifest_sha256),
        raw_payload_returned: false,
        warnings: w.map_values(|x: Seq<char>| redacted_text(x)),
    }
}

// ---------------------------------------------------------------------------
// The preflight
// ---------------------------------------------------------------------------

pub open spec fn path_configured(path: Option<Seq<char>>) -> bool {
    match path {
        Some(p) => trim(p).len() > 0,
        None => false,
    }
}

pub open spec fn not_requested_note() -> Seq<char> {
    "OCI send ledger preflight was not requested."@
}

pub open spec fn row_count_mismatch_warning() -> Seq<char> {
    "OCI send ledger expected row count does not match the Interspire send recipient count"@
}

pub open spec fn invalid_identifier_warning() -> Seq<char> {
    "OCI send ledger campaign_id and batch_id must be non-empty printable identifiers"@
}

pub open spec fn campaign_mismatch_warning() -> Seq<char> {
    "OCI send ledger campaign_id must match the Interspire campaign being sent"@
}

pub open spec fn invalid_domain_warning() -> Seq<char> {
    "OCI send ledger sender_domain must be a valid domain token"@
}

pub open spec fn invalid_manifest_warning() -> Seq<char> {
    "OCI send ledger expected_manifest_sha256 must be a 64-character hex SHA-256"@
}

pub open spec fn not_configured_warning() -> Seq<char> {
    "INTERSPIRE_OCI_SEND_LEDGER_PATH is not configured; guarded send refused before the Interspire final send boundary"@
}

pub open spec fn unopened_warning() -> Seq<char> {
    "configured OCI send ledger could not be opened; guarded send refused before the Interspire final send boundary"@
}

/// The report decided before the ledger is read, if any: the preflight is
/// skipped without a request and blocked on an invalid request or a missing
/// ledger path.
pub open spec fn preflight_gate(
    path: Option<Seq<char>>,
    required: bool,
    request: Option<PreflightRequestView>,
    expected_recipient_count: u64,
    interspire_campaign_id: Option<u64>,
) -> Option<PreflightReportView> {
    let configured = path_configured(path);
    match request {
        None => Some(skipped_report(required, configured, not_requested_note())),
        Some(q) => if q.expected_rows != expected_recipient_count {
            Some(blocked_report(required, configured, request, row_count_mismatch_warning()))
        } else if !valid_identifier(q.campaign_id) || !valid_identifier(q.batch_id) {
            Some(blocked_report(required, configured, request, invalid_identifier_warning()))
        } else if (interspire_campaign_id matches Some(c) && trim(q.campaign_id) != decimal(
            c as nat,
        )) {
            Some(blocked_report(required, configured, request, campaign_mismatch_warning()))
        } else if (q.sender_domain matches Some(d) && !valid_domain(d)) {
            Some(blocked_report(required, configured, request, invalid_domain_warning()))
        } else if (q.expected_manifest_sha256 matches Some(m) && !valid_sha256(m)) {
            Some(blocked_report(required, configured, request, invalid_manifest_warning()))
        } else if !configured {
            Some(blocked_report(required, false, request, not_configured_warning()))
        } else {
            None
        },
    }
}

/// The preflight report, given the ledger's lines (`None` when the ledger
/// file could not be opened).
pub open spec fn preflight_report(
    path: Option<Seq<char>>,
    required: bool,
    request: Option<PreflightRequestView>,
    expected_recipient_count: u64,
    interspire_campaign_id: Option<u64>,
    ledger: Option<Seq<Option<Seq<char>>>>,
) -> PreflightReportView {
    match preflight_gate(path, required, request, expected_recipient_count, interspire_campaign_id) {
        Some(r) => r,
        None => match (request, ledger) {
            (Some(q), Some(lines)) => ledger_report(required, q, lines),
            _ => blocked_report(required, true, request, unopened_warning()),
        },
    }
}

// ---------------------------------------------------------------------------
// Ledger rows (exec)
// ---------------------------------------------------------------------------

fn campaign_id_key_list() -> (r: Vec<&'static str>)
    ensures
        r.deep_view() == campaign_id_keys(),
{
    let r = vec!["campaign_id", "campaignId"];
    assert(r.deep_view() =~= campaign_id_keys());
    r
}

fn campaign_hash_key_list() -> (r: Vec<&'static str>)
    ensures
        r.deep_view() == campaign_hash_keys(),
{
    let r = vec!["campaign_hash", "campaignHash", "campaign_id_hash", "campaignIdHash"];
    assert(r.deep_view() =~= campaign_hash_keys());
    r
}

fn batch_id_key_list() -> (r: Vec<&'static str>)
    ensures
        r.deep_view() == batch_id_keys(),
{
    let r = vec!["batch_id", "batchId"];
    assert(r.deep_view() =~= batch_id_keys());
    r
}

fn batch_hash_key_list() -> (r: Vec<&'static str>)
    ensures
        r.deep_view() == batch_hash_keys(),
{
    let r = vec!["batch_hash", "batchHash", "batch_id_hash", "batchIdHash"];
    assert(r.deep_view() =~= batch_hash_keys());
    r
}

fn sender_domain_key_list() -> (r: Vec<&'static str>)
    ensures
        r.deep_view() == sender_domain_keys(),
{
    let r = vec!["sender_domain", "senderDomain"];
    assert(r.deep_view() =~= sender_domain_keys());
    r
}

fn sender_key_list() -> (r: Vec<&'static str>)
    ensures
        r.deep_view() == sender_keys(),
{
    let r = vec!["sender", "approved_sender", "approvedSender"];
    assert(r.deep_view() =~= sender_keys());
    r
}

fn manifest_key_list() -> (r: Vec<&'static str>)
    ensures
        r.deep_view() == manifest_keys(),
{
    let r = vec!["manifest_sha256", "manifestSha256"];
    assert(r.deep_view() =~= manifest_keys());
    r
}

fn recipient_key_list() -> (r: Vec<&'static str>)
    ensures
        r.deep_view() == recipient_keys(),
{
    let r = vec!["recipient_id", "recipientId", "recipient_id_hash", "recipientIdHash", "recipient", "recipient_email", "recipientEmail", "recipient_address_hash", "recipientAddressHash", "recipient_hash", "recipientHash"];
    assert(r.deep_view() =~= recipient_keys());
    r
}

fn trace_key_list() -> (r: Vec<&'static str>)
    ensures
        r.deep_view() == trace_keys(),
{
    let r = vec!["message_id", "messageId", "provider_message_id", "providerMessageId", "message_id_hash", "messageIdHash", "correlation_id", "correlationId", "correlation_id_hash", "correlationIdHash", "header_value_hash", "headerValueHash"];
    assert(r.deep_view() =~= trace_keys());
    r
}

fn string_member_exec(fields: &Vec<JsonField>, key: &[char]) -> (r: Option<Vec<char>>)
    ensures
        r.deep_view() == string_member(fields.deep_view(), key@),
{
    let ghost fs = fields.deep_view();
    let n = fields.len();
    assert(fs.skip(0) == fs);
    for i in 0..n
        invariant
            n == fields@.len(),
            fs == fields.deep_view(),
            member(fs, key@) == member(fs.skip(i as int), key@),
    {
        assert(fs.skip(i as int)[0] == fs[i as int]);
        assert(fs.skip(i as int).drop_first() == fs.skip(i + 1));
        let field = &fields[i];
        assert(fs[i as int] == (field.key@, field.text.deep_view()));
        let name = to_chars(field.key.as_str());
        if crate::text::chars_eq(name.as_slice(), key) {
            return match &field.text {
                Some(text) => Some(to_chars(text.as_str())),
                None => None,
            };
        }
    }
    None
}

fn string_any_exec(fields: &Vec<JsonField>, keys: &Vec<&str>) -> (r: Option<Vec<char>>)
    ensures
        r.deep_view() == string_any(fields.deep_view(), keys.deep_view()),
{
    let ghost ks = keys.deep_view();
    let n = keys.len();
    assert(ks.skip(0) == ks);
    for i in 0..n
        invariant
            n == keys@.len(),
            ks == keys.deep_view(),
            string_any(fields.deep_view(), ks) == string_any(
                fields.deep_view(),
                ks.skip(i as int),
            ),
    {
        assert(ks.skip(i as int)[0] == ks[i as int]);
        assert(ks.skip(i as int).drop_first() == ks.skip(i + 1));
        let key = to_chars(keys[i]);
        assert(key@ == ks[i as int]);
        let found = string_member_exec(fields, key.as_slice());
        if found.is_some() {
            return found;
        }
    }
    None
}

fn has_any_string_exec(fields: &Vec<JsonField>, keys: &Vec<&str>) -> (b: bool)
    ensures
        b == has_any_string(fields.deep_view(), keys.deep_view()),
{
    match string_any_exec(fields, keys) {
        Some(s) => trim_chars(s.as_slice()).len() > 0,
        None => false,
    }
}

fn all_hexdigits_exec(s: &[char]) -> (b: bool)
    ensures
        b == all_hexdigits(s@),
{
    let n = s.len();
    for i in 0..n
        invariant
            n == s@.len(),
            forall|k: int| 0 <= k < i ==> crate::text::is_hexdigit(#[trigger] s@[k]),
    {
        if !is_ascii_hexdigit(s[i]) {
            return false;
        }
    }
    true
}

fn normalized_hash_exec(value: &[char]) -> (r: Vec<char>)
    ensures
        r@ == normalized_hash(value@),
{
    let t = trim_chars(value);
    let is_short_hash = match utf8_len_upto(t.as_slice(), 20) {
        Some(k) => k == 20 && all_hexdigits_exec(t.as_slice()),
        None => false,
    };
    if is_short_hash {
        to_ascii_lower(t.as_slice())
    } else {
        let h = short_hash_chars(t.as_slice());
        to_chars(h.as_str())
    }
}

fn matches_identifier_exec(
    filter: &[char],
    raw_value: &Option<Vec<char>>,
    hash_value: &Option<Vec<char>>,
) -> (b: bool)
    ensures
        b == matches_identifier(filter@, raw_value.deep_view(), hash_value.deep_view()),
{
    let f = trim_chars(filter);
    if let Some(v) = raw_value {
        let tv = trim_chars(v.as_slice());
        if crate::text::chars_eq(tv.as_slice(), f.as_slice()) {
            return true;
        }
    }
    match hash_value {
        Some(h) => {
            let normalized = normalized_hash_exec(h.as_slice());
            let expected = short_hash_chars(f.as_slice());
            let expected = to_chars(expected.as_str());
            proof {
                crate::response::oci_ledger::lemma_short_hash_trim(filter@);
            }
            crate::text::chars_eq(normalized.as_slice(), expected.as_slice())
        },
        None => false,
    }
}

fn matches_sha256_exec(filter: &[char], raw_value: &Option<Vec<char>>) -> (b: bool)
    ensures
        b == matches_sha256(filter@, raw_value.deep_view()),
{
    match raw_value {
        Some(v) => {
            let a = to_ascii_lower(trim_chars(v.as_slice()).as_slice());
            let b = to_ascii_lower(trim_chars(filter).as_slice());
            crate::text::chars_eq(a.as_slice(), b.as_slice())
        },
        None => false,
    }
}

fn email_domain_exec(value: &[char]) -> (r: Option<Vec<char>>)
    ensures
        r.deep_view() == email_domain(value@),
{
    let t = trim_chars(value);
    match split_once_chars(t.as_slice(), '@') {
        Some((_local, domain)) => {
            if valid_domain_exec(domain.as_slice()) {
                let d = trim_chars(domain.as_slice());
                Some(to_ascii_lower(d.as_slice()))
            } else {
                None
            }
        },
        None => None,
    }
}

fn domain_from_address_or_domain_exec(value: &[char]) -> (r: Option<Vec<char>>)
    ensures
        r.deep_view() == domain_from_address_or_domain(value@),
{
    if contains_char(value, '@') {
        email_domain_exec(value)
    } else if valid_domain_exec(value) {
        let t = trim_chars(value);
        Some(to_ascii_lower(t.as_slice()))
    } else {
        None
    }
}

fn row_sender_domain_exec(fields: &Vec<JsonField>) -> (r: Option<Vec<char>>)
    ensures
        r.deep_view() == row_sender_domain(fields.deep_view()),
{
    let from_domain = match string_any_exec(fields, &sender_domain_key_list()) {
        Some(v) => domain_from_address_or_domain_exec(v.as_slice()),
        None => None,
    };
    match from_domain {
        Some(d) => Some(d),
        None => match string_any_exec(fields, &sender_key_list()) {
            Some(v) => email_domain_exec(v.as_slice()),
            None => None,
        },
    }
}

fn row_matches(request: &OciLedgerPreflightRequest, fields: &Vec<JsonField>) -> (b: bool)
    ensures
        b == row_matches_request(request@, fields.deep_view()),
{
    let campaign = to_chars(request.campaign_id.as_str());
    let raw = string_any_exec(fields, &campaign_id_key_list());
    let hashed = string_any_exec(fields, &campaign_hash_key_list());
    if !matches_identifier_exec(campaign.as_slice(), &raw, &hashed) {
        return false;
    }
    let batch = to_chars(request.batch_id.as_str());
    let raw = string_any_exec(fields, &batch_id_key_list());
    let hashed = string_any_exec(fields, &batch_hash_key_list());
    if !matches_identifier_exec(batch.as_slice(), &raw, &hashed) {
        return false;
    }
    if let Some(sender_domain) = &request.sender_domain {
        let d = to_chars(sender_domain.as_str());
        let expected = to_ascii_lower(trim_chars(d.as_slice()).as_slice());
        let matched = match row_sender_domain_exec(fields) {
            Some(actual) => crate::text::chars_eq(actual.as_slice(), expected.as_slice()),
            None => false,
        };
        if !matched {
            return false;
        }
    }
    if let Some(manifest) = &request.expected_manifest_sha256 {
        let m = to_chars(manifest.as_str());
        let raw = string_any_exec(fields, &manifest_key_list());
        if !matches_sha256_exec(m.as_slice(), &raw) {
            return false;
        }
    }
    true
}

/// What one ledger line contributes to the counts.
fn classify_line(line: &LedgerLine, request: &OciLedgerPreflightRequest) -> (r: LineOutcome)
    ensures
        r == line_outcome(line.deep_view(), request@),
{
    match line {
        LedgerLine::Unreadable => LineOutcome::Invalid,
        LedgerLine::Text(text) => {
            let chars = to_chars(text.as_str());
            if trim_chars(chars.as_slice()).len() == 0 {
                return LineOutcome::Blank;
            }
            let parsed = parse_json_object(text.as_str());
            classify_parsed_row(&parsed, request)
        },
    }
}

/// What a non-blank ledger line contributes, given what the JSON parse made
/// of it: invalid unless it is an object; otherwise matched (with whether it
/// carries a recipient key and a trace key) or unmatched.
pub fn classify_parsed_row(
    parsed: &Option<Option<Vec<JsonField>>>,
    request: &OciLedgerPreflightRequest,
) -> (r: LineOutcome)
    ensures
        r == parsed_row_outcome(parsed.deep_view(), request@),
{
    match parsed {
        Some(Some(fields)) => {
            if row_matches(request, fields) {
                LineOutcome::Matched {
                    recipient: has_any_string_exec(fields, &recipient_key_list()),
                    trace: has_any_string_exec(fields, &trace_key_list()),
                }
            } else {
                LineOutcome::Unmatched
            }
        },
        _ => LineOutcome::Invalid,
    }
}

// ---------------------------------------------------------------------------
// The preflight (exec)
// ---------------------------------------------------------------------------

/// Where a preflight stands before the ledger is read.
pub enum PreflightStep {
    /// The report is decided without the ledger.
    Finished(OciLedgerPreflightReport),
    /// The ledger at the configured path must be read next.
    ReadLedger,
}

pub open spec fn ledger_view(ledger: Option<&Vec<LedgerLine>>) -> Option<Seq<Option<Seq<char>>>> {
    match ledger {
        Some(lines) => Some(lines.deep_view()),
        None => None,
    }
}

fn blocked_with(
    required: bool,
    configured: bool,
    request: Option<&OciLedgerPreflightRequest>,
    warning: &str,
) -> (r: OciLedgerPreflightReport)
    ensures
        r@ == blocked_report(
            required,
            configured,
            crate::response::oci_ledger::request_view(request),
            warning@,
        ),
{
    OciLedgerPreflightReport::blocked(required, configured, request, String::from_str(warning))
}

/// Decides the preflight as far as it can be decided without reading the
/// ledger: skipped without a request, blocked on an invalid request or a
/// missing ledger path.
pub fn verify_preflight_start(
    config: &OciSendLedgerConfig,
    request: Option<&OciLedgerPreflightRequest>,
    expected_recipient_count: u64,
    interspire_campaign_id: Option<u64>,
) -> (r: PreflightStep)
    ensures
        match r {
            PreflightStep::Finished(report) => preflight_gate(
                config.path.deep_view(),
                config.required_for_sends,
                crate::response::oci_ledger::request_view(request),
                expected_recipient_count,
                interspire_campaign_id,
            ) == Some(report@),
            PreflightStep::ReadLedger => preflight_gate(
                config.path.deep_view(),
                config.required_for_sends,
                crate::response::oci_ledger::request_view(request),
                expected_recipient_count,
                interspire_campaign_id,
            ) is None,
        },
{
    let configured = match &config.path {
        Some(path) => {
            let chars = to_chars(path.as_str());
            trim_chars(chars.as_slice()).len() > 0
        },
        None => false,
    };
    let required = config.required_for_sends;
    let q = match request {
        None => {
            return PreflightStep::Finished(
                OciLedgerPreflightReport::skipped(
                    required,
                    configured,
                    "OCI send ledger preflight was not requested.",
                ),
            );
        },
        Some(q) => q,
    };
    if q.expected_rows != expected_recipient_count {
        return PreflightStep::Finished(
            blocked_with(
                required,
                configured,
                request,
                "OCI send ledger expected row count does not match the Interspire send recipient count",
            ),
        );
    }
    let campaign = to_chars(q.campaign_id.as_str());
    let batch = to_chars(q.batch_id.as_str());
    if !valid_identifier_exec(campaign.as_slice()) || !valid_identifier_exec(batch.as_slice()) {
        return PreflightStep::Finished(
            blocked_with(
                required,
                configured,
                request,
                "OCI send ledger campaign_id and batch_id must be non-empty printable identifiers",
            ),
        );
    }
    if let Some(expected_campaign_id) = interspire_campaign_id {
        let trimmed = trim_chars(campaign.as_slice());
        let mut digits: Vec<char> = Vec::new();
        push_decimal(&mut digits, expected_campaign_id);
        assert(digits@ =~= decimal(expected_campaign_id as nat));
        if !crate::text::chars_eq(trimmed.as_slice(), digits.as_slice()) {
            return PreflightStep::Finished(
                blocked_with(
                    required,
                    configured,
                    request,
                    "OCI send ledger campaign_id must match the Interspire campaign being sent",
                ),
            );
        }
    }
    if let Some(domain) = &q.sender_domain {
        let d = to_chars(domain.as_str());
        if !valid_domain_exec(d.as_slice()) {
            return PreflightStep::Finished(
                blocked_with(
                    required,
                    configured,
                    request,
                    "OCI send ledger sender_domain must be a valid domain token",
                ),
            );
        }
    }
    if let Some(manifest) = &q.expected_manifest_sha256 {
        let m = to_chars(manifest.as_str());
        if !valid_sha256_exec(m.as_slice()) {
            return PreflightStep::Finished(
                blocked_with(
                    required,
                    configured,
                    request,
                    "OCI send ledger expected_manifest_sha256 must be a 64-character hex SHA-256",
                ),
            );
        }
    }
    if !configured {
        return PreflightStep::Finished(
            blocked_with(
                required,
                false,
                request,
                "INTERSPIRE_OCI_SEND_LEDGER_PATH is not configured; guarded send refused before the Interspire final send boundary",
            ),
        );
    }
    PreflightStep::ReadLedger
}

fn push_warning(warnings: &mut Vec<String>, raw: &[char])
    ensures
        final(warnings).deep_view() == old(warnings).deep_view().push(redacted_text(raw@)),
{
    let text = from_chars(raw);
    let redacted = redact_sensitive_text(text.as_str());
    let ghost before = warnings.deep_view();
    warnings.push(redacted);
    assert(warnings.deep_view() =~= before.push(redacted_text(raw@)));
}

/// Counts the ledger rows that match `request` and reports the aggregates.
fn ledger_report_exec(
    required: bool,
    request: &OciLedgerPreflightRequest,
    lines: &Vec<LedgerLine>,
) -> (r: OciLedgerPreflightReport)
    ensures
        r@ == ledger_report(required, request@, lines.deep_view()),
{
    let ghost ls = lines.deep_view();
    let n = lines.len();
    let mut matched_rows: u64 = 0;
    let mut rows_with_recipient_key: u64 = 0;
    let mut rows_with_trace_key: u64 = 0;
    let mut invalid_rows: u64 = 0;
    assert(ls.take(0) =~= Seq::<Option<Seq<char>>>::empty());
    for i in 0..n
        invariant
            n == lines@.len(),
            ls == lines.deep_view(),
            matched_rows <= i,
            rows_with_recipient_key <= i,
            rows_with_trace_key <= i,
            invalid_rows <= i,
            tally(ls.take(i as int), request@) == (Tally {
                matched: matched_rows as nat,
                recipient: rows_with_recipient_key as nat,
                trace: rows_with_trace_key as nat,
                invalid: invalid_rows as nat,
            }),
    {
        assert(ls.take(i + 1).drop_last() == ls.take(i as int));
        assert(ls.take(i + 1).last() == ls[i as int]);
        assert(ls[i as int] == lines@[i as int].deep_view());
        match classify_line(&lines[i], request) {
            LineOutcome::Invalid => {
                invalid_rows = invalid_rows + 1;
            },
            LineOutcome::Matched { recipient, trace } => {
                matched_rows = matched_rows + 1;
                if recipient {
                    rows_with_recipient_key = rows_with_recipient_key + 1;
                }
                if trace {
                    rows_with_trace_key = rows_with_trace_key + 1;
                }
            },
            _ => {},
        }
    }
    assert(ls.take(n as int) == ls);
    let ghost t = tally(ls, request@);
    let ghost raw_warnings = ledger_warnings(t, request.expected_rows);
    let mut warnings: Vec<String> = Vec::new();
    let ghost mut added: Seq<Seq<char>> = seq![];
    if matched_rows != request.expected_rows {
        let mut msg: Vec<char> = Vec::new();
        extend_str(&mut msg, "OCI send ledger matched ");
        push_decimal(&mut msg, matched_rows);
        extend_str(&mut msg, " rows but expected ");
        push_decimal(&mut msg, request.expected_rows);
        extend_str(&mut msg, " rows");
        assert(msg@ == count_warning(t, request.expected_rows));
        push_warning(&mut warnings, msg.as_slice());
        proof {
            added = added.push(msg@);
        }
    }
    if rows_with_recipient_key != matched_rows {
        let msg = to_chars(
            "one or more matched OCI send ledger rows lack a recipient key or recipient hash",
        );
        push_warning(&mut warnings, msg.as_slice());
        proof {
            added = added.push(msg@);
        }
    }
    if rows_with_trace_key != matched_rows {
        let msg = to_chars(
            "one or more matched OCI send ledger rows lack a message or correlation key",
        );
        push_warning(&mut warnings, msg.as_slice());
        proof {
            added = added.push(msg@);
        }
    }
    if invalid_rows > 0 {
        let msg = to_chars("one or more OCI send ledger rows were invalid JSON objects");
        push_warning(&mut warnings, msg.as_slice());
        proof {
            added = added.push(msg@);
        }
    }
    assert(added =~= raw_warnings);
    assert(warnings.deep_view() =~= raw_warnings.map_values(|x: Seq<char>| redacted_text(x)));
    let sender_domain = match &request.sender_domain {
        Some(d) => {
            let c = to_chars(d.as_str());
            let lowered = to_ascii_lower(trim_chars(c.as_slice()).as_slice());
            Some(from_chars(lowered.as_slice()))
        },
        None => None,
    };
    let manifest_sha256 = match &request.expected_manifest_sha256 {
        Some(m) => {
            let c = to_chars(m.as_str());
            let lowered = to_ascii_lower(trim_chars(c.as_slice()).as_slice());
            Some(from_chars(lowered.as_slice()))
        },
        None => None,
    };
    let verified = warnings.len() == 0;
    OciLedgerPreflightReport {
        required,
        configured: true,
        requested: true,
        verified,
        campaign_hash: Some(crate::response::oci_ledger::short_hash(request.campaign_id.as_str())),
        batch_hash: Some(crate::response::oci_ledger::short_hash(request.batch_id.as_str())),
        sender_domain,
        expected_rows: Some(request.expected_rows),
        matched_rows,
        rows_with_recipient_key,
        rows_with_trace_key,
        invalid_rows,
        manifest_sha256,
        raw_payload_returned: false,
        warnings,
    }
}

/// Runs the preflight over the ledger's lines, as read from the configured
/// path (`None` when the file could not be opened). The ledger is consulted
/// only when `verify_preflight_start` asks for it.
pub fn verify_preflight(
    config: &OciSendLedgerConfig,
    request: Option<&OciLedgerPreflightRequest>,
    expected_recipient_count: u64,
    interspire_campaign_id: Option<u64>,
    ledger: Option<&Vec<LedgerLine>>,
) -> (r: OciLedgerPreflightReport)
    ensures
        r@ == preflight_report(
            config.path.deep_view(),
            config.required_for_sends,
            crate::response::oci_ledger::request_view(request),
            expected_recipient_count,
            interspire_campaign_id,
            ledger_view(ledger),
        ),
{
    match verify_preflight_start(config, request, expected_recipient_count, interspire_campaign_id) {
        PreflightStep::Finished(report) => report,
        PreflightStep::ReadLedger => match (request, ledger) {
            (Some(q), Some(lines)) => ledger_report_exec(config.required_for_sends, q, lines),
            _ => blocked_with(
                config.required_for_sends,
                true,
                request,
                "configured OCI send ledger could not be opened; guarded send refused before the Interspire final send boundary",
            ),
        },
    }
}

// ---------------------------------------------------------------------------
// Laws
// ---------------------------------------------------------------------------

/// A report decided before the ledger is read is never verified once
/// requested, and echoes neither the sender domain nor the manifest.
#[verifier::spinoff_prover]
proof fn lemma_gate_report_shape(
    path: Option<Seq<char>>,
    required: bool,
    request: Option<PreflightRequestView>,
    expected_recipient_count: u64,
    interspire_campaign_id: Option<u64>,
)
    ensures
        preflight_gate(path, required, request, expected_recipient_count, interspire_campaign_id)
            matches Some(r) ==> {
            &&& !r.raw_payload_returned
            &&& r.required == required
            &&& r.requested == (request is Some)
            &&& r.campaign_hash == crate::response::oci_ledger::hash_of_field(request, true)
            &&& r.batch_hash == crate::response::oci_ledger::hash_of_field(request, false)
            &&& r.sender_domain is None
            &&& r.manifest_sha256 is None
            &&& r.verified ==> !r.requested && !required
        },
{
}

/// The report over a read ledger is verified only when every count agrees.
#[verifier::spinoff_prover]
proof fn lemma_ledger_report_shape(
    required: bool,
    q: PreflightRequestView,
    lines: Seq<Option<Seq<char>>>,
)
    ensures
        ({
            let r = ledger_report(required, q, lines);
            &&& !r.raw_payload_returned
            &&& r.required == required
            &&& r.requested
            &&& r.configured
            &&& r.campaign_hash == Some(short_hash_of(q.campaign_id))
            &&& r.batch_hash == Some(short_hash_of(q.batch_id))
            &&& r.verified ==> {
                &&& r.expected_rows == Some(r.matched_rows)
                &&& r.rows_with_recipient_key == r.matched_rows
                &&& r.rows_with_trace_key == r.matched_rows
                &&& r.invalid_rows == 0
            }
        }),
{
    let t = tally(lines, q);
    let w = ledger_warnings(t, q.expected_rows);
    if w.len() == 0 {
        assert(t.matched == q.expected_rows);
        assert(t.recipient == t.matched);
        assert(t.trace == t.matched);
        assert(t.invalid == 0);
    }
}

/// The preflight report is aggregate and redacted: it never returns the raw
/// payload, names the campaign and batch only by their hashes, echoes the
/// sender domain and manifest only after a ledger was read, and is verified
/// only when every count agrees (or, without a request, only when the ledger
/// is not required).
pub proof fn law_preflight_report_is_aggregate(
    path: Option<Seq<char>>,
    required: bool,
    request: Option<PreflightRequestView>,
    expected_recipient_count: u64,
    interspire_campaign_id: Option<u64>,
    ledger: Option<Seq<Option<Seq<char>>>>,
)
    ensures
        ({
            let r = preflight_report(
                path,
                required,
                request,
                expected_recipient_count,
                interspire_campaign_id,
                ledger,
            );
            &&& !r.raw_payload_returned
            &&& r.required == required
            &&& r.requested == (request is Some)
            &&& r.campaign_hash == crate::response::oci_ledger::hash_of_field(request, true)
            &&& r.batch_hash == crate::response::oci_ledger::hash_of_field(request, false)
            &&& (r.verified && r.requested) ==> {
                &&& r.configured
                &&& r.expected_rows == Some(r.matched_rows)
                &&& r.rows_with_recipient_key == r.matched_rows
                &&& r.rows_with_trace_key == r.matched_rows
                &&& r.invalid_rows == 0
            }
            &&& (r.verified && !r.requested) ==> !r.required
            &&& (r.sender_domain is Some || r.manifest_sha256 is Some) ==> (r.configured
                && r.requested)
        }),
{
    let g = preflight_gate(path, required, request, expected_recipient_count, interspire_campaign_id);
    match g {
        Some(r) => lemma_gate_report_shape(
            path,
            required,
            request,
            expected_recipient_count,
            interspire_campaign_id,
        ),
        None => match (request, ledger) {
            (Some(q), Some(lines)) => lemma_ledger_report_shape(required, q, lines),
            _ => {},
        },
    }
}

/// The ledger is consulted only once the request passes every check: a
/// preflight decided before reading it gives the same report whatever the
/// ledger holds.
pub proof fn law_ledger_read_only_after_checks(
    path: Option<Seq<char>>,
    required: bool,
    request: Option<PreflightRequestView>,
    expected_recipient_count: u64,
    interspire_campaign_id: Option<u64>,
    ledger: Option<Seq<Option<Seq<char>>>>,
    other: Option<Seq<Option<Seq<char>>>>,
)
    requires
        preflight_gate(path, required, request, expected_recipient_count, interspire_campaign_id)
            is Some,
    ensures
        preflight_report(path, required, request, expected_recipient_count, interspire_campaign_id, ledger)
            == preflight_report(
            path,
            required,
            request,
            expected_recipient_count,
            interspire_campaign_id,
            other,
        ),
{
}

// ---------------------------------------------------------------------------
// Recipient and message values reach the report only as counts
// ---------------------------------------------------------------------------

/// A key under which a row names its recipient or its message.
pub open spec fn is_identity_key(k: Seq<char>) -> bool {
    recipient_keys().contains(k) || trace_keys().contains(k)
}

/// The first two characters of every recipient or message key.
spec fn identity_head(k: Seq<char>) -> bool {
    &&& k.len() >= 2
    &&& ((k[1] == 'e' && (k[0] == 'r' || k[0] == 'm' || k[0] == 'h')) || (k[0] == 'p' && k[1]
        == 'r') || (k[0] == 'c' && k[1] == 'o'))
}

proof fn lemma_identity_heads(k: Seq<char>)
    requires
        is_identity_key(k),
    ensures
        identity_head(k),
{
    reveal_strlit("recipient_id");
    reveal_strlit("recipientId");
    reveal_strlit("recipient_id_hash");
    reveal_strlit("recipientIdHash");
    reveal_strlit("recipient");
    reveal_strlit("recipient_email");
    reveal_strlit("recipientEmail");
    reveal_strlit("recipient_address_hash");
    reveal_strlit("recipientAddressHash");
    reveal_strlit("recipient_hash");
    reveal_strlit("recipientHash");
    reveal_strlit("message_id");
    reveal_strlit("messageId");
    reveal_strlit("provider_message_id");
    reveal_strlit("providerMessageId");
    reveal_strlit("message_id_hash");
    reveal_strlit("messageIdHash");
    reveal_strlit("correlation_id");
    reveal_strlit("correlationId");
    reveal_strlit("correlation_id_hash");
    reveal_strlit("correlationIdHash");
    reveal_strlit("header_value_hash");
    reveal_strlit("headerValueHash");
    if recipient_keys().contains(k) {
        let i = choose|i: int| 0 <= i < recipient_keys().len() && recipient_keys()[i] == k;
        assert(identity_head(recipient_keys()[i]));
    } else {
        let i = choose|i: int| 0 <= i < trace_keys().len() && trace_keys()[i] == k;
        assert(identity_head(trace_keys()[i]));
    }
}

/// None of the keys a row is matched by names a recipient or a message.
proof fn lemma_match_keys_are_not_identity_keys()
    ensures
        forall|i: int| 0 <= i < campaign_id_keys().len() ==> !is_identity_key(#[trigger] campaign_id_keys()[i]),
        forall|i: int| 0 <= i < campaign_hash_keys().len() ==> !is_identity_key(#[trigger] campaign_hash_keys()[i]),
        forall|i: int| 0 <= i < batch_id_keys().len() ==> !is_identity_key(#[trigger] batch_id_keys()[i]),
        forall|i: int| 0 <= i < batch_hash_keys().len() ==> !is_identity_key(#[trigger] batch_hash_keys()[i]),
        forall|i: int| 0 <= i < sender_domain_keys().len() ==> !is_identity_key(#[trigger] sender_domain_keys()[i]),
        forall|i: int| 0 <= i < sender_keys().len() ==> !is_identity_key(#[trigger] sender_keys()[i]),
        forall|i: int| 0 <= i < manifest_keys().len() ==> !is_identity_key(#[trigger] manifest_keys()[i]),
{
    reveal_strlit("campaign_id");
    reveal_strlit("campaignId");
    reveal_strlit("campaign_hash");
    reveal_strlit("campaignHash");
    reveal_strlit("campaign_id_hash");
    reveal_strlit("campaignIdHash");
    reveal_strlit("batch_id");
    reveal_strlit("batchId");
    reveal_strlit("batch_hash");
    reveal_strlit("batchHash");
    reveal_strlit("batch_id_hash");
    reveal_strlit("batchIdHash");
    reveal_strlit("sender_domain");
    reveal_strlit("senderDomain");
    reveal_strlit("sender");
    reveal_strlit("approved_sender");
    reveal_strlit("approvedSender");
    reveal_strlit("manifest_sha256");
    reveal_strlit("manifestSha256");
    assert forall|k: Seq<char>| is_identity_key(k) implies identity_head(k) by {
        lemma_identity_heads(k);
    }
}

/// Two member values under key `k` that differ at most as a recipient or
/// message value may: equal under any other key; under a recipient or
/// message key, both strings (both blank or both not) or both not strings.
pub open spec fn values_alike(k: Seq<char>, v1: Option<Seq<char>>, v2: Option<Seq<char>>) -> bool {
    if is_identity_key(k) {
        match (v1, v2) {
            (None, None) => true,
            (Some(a), Some(b)) => (trim(a).len() == 0) == (trim(b).len() == 0),
            _ => false,
        }
    } else {
        v1 == v2
    }
}

/// Two parsed rows with the same keys in the same order, whose values differ
/// at most in what recipient and message keys hold.
pub open spec fn rows_alike(
    f1: Seq<(Seq<char>, Option<Seq<char>>)>,
    f2: Seq<(Seq<char>, Option<Seq<char>>)>,
) -> bool {
    &&& f1.len() == f2.len()
    &&& forall|i: int|
        0 <= i < f1.len() ==> #[trigger] f1[i].0 == f2[i].0 && values_alike(f1[i].0, f1[i].1, f2[i].1)
}

/// Two results of the JSON parse that are alike: both not JSON, both not
/// objects, or both objects whose rows are alike.
pub open spec fn parsed_alike(
    p1: Option<Option<Seq<(Seq<char>, Option<Seq<char>>)>>>,
    p2: Option<Option<Seq<(Seq<char>, Option<Seq<char>>)>>>,
) -> bool {
    match (p1, p2) {
        (None, None) => true,
        (Some(None), Some(None)) => true,
        (Some(Some(f1)), Some(Some(f2))) => rows_alike(f1, f2),
        _ => false,
    }
}

proof fn lemma_member_alike(
    f1: Seq<(Seq<char>, Option<Seq<char>>)>,
    f2: Seq<(Seq<char>, Option<Seq<char>>)>,
    k: Seq<char>,
)
    requires
        rows_alike(f1, f2),
    ensures
        match (member(f1, k), member(f2, k)) {
            (None, None) => true,
            (Some(v1), Some(v2)) => values_alike(k, v1, v2),
            _ => false,
        },
    decreases f1.len(),
{
    if f1.len() > 0 {
        assert(f1[0].0 == f2[0].0);
        assert(rows_alike(f1.drop_first(), f2.drop_first())) by {
            assert forall|i: int| 0 <= i < f1.drop_first().len() implies #[trigger] f1.drop_first()[i].0
                == f2.drop_first()[i].0 && values_alike(
                f1.drop_first()[i].0,
                f1.drop_first()[i].1,
                f2.drop_first()[i].1,
            ) by {
                assert(f1[i + 1].0 == f2[i + 1].0);
            }
        }
        lemma_member_alike(f1.drop_first(), f2.drop_first(), k);
    }
}

/// Under keys that name neither a recipient nor a message, alike rows give
/// the same string.
proof fn lemma_string_any_plain(
    f1: Seq<(Seq<char>, Option<Seq<char>>)>,
    f2: Seq<(Seq<char>, Option<Seq<char>>)>,
    keys: Seq<Seq<char>>,
)
    requires
        rows_alike(f1, f2),
        forall|i: int| 0 <= i < keys.len() ==> !is_identity_key(#[trigger] keys[i]),
    ensures
        string_any(f1, keys) == string_any(f2, keys),
    decreases keys.len(),
{
    if keys.len() > 0 {
        lemma_member_alike(f1, f2, keys[0]);
        assert forall|i: int| 0 <= i < keys.drop_first().len() implies !is_identity_key(
            #[trigger] keys.drop_first()[i],
        ) by {
            assert(keys.drop_first()[i] == keys[i + 1]);
        }
        lemma_string_any_plain(f1, f2, keys.drop_first());
    }
}

/// Under any keys, alike rows both have a string or both have none, and the
/// two strings are both blank or both not.
proof fn lemma_string_any_alike(
    f1: Seq<(Seq<char>, Option<Seq<char>>)>,
    f2: Seq<(Seq<char>, Option<Seq<char>>)>,
    keys: Seq<Seq<char>>,
)
    requires
        rows_alike(f1, f2),
    ensures
        match (string_any(f1, keys), string_any(f2, keys)) {
            (None, None) => true,
            (Some(a), Some(b)) => (trim(a).len() == 0) == (trim(b).len() == 0),
            _ => false,
        },
    decreases keys.len(),
{
    if keys.len() > 0 {
        lemma_member_alike(f1, f2, keys[0]);
        lemma_string_any_alike(f1, f2, keys.drop_first());
    }
}

/// Recipient and message values decide a row's outcome only by whether they
/// are there: parsed rows that differ only in what recipient and message
/// keys hold (each pair of values both blank or both not) contribute alike.
pub proof fn law_row_outcome_ignores_identity_values(
    request: PreflightRequestView,
    p1: Option<Option<Seq<(Seq<char>, Option<Seq<char>>)>>>,
    p2: Option<Option<Seq<(Seq<char>, Option<Seq<char>>)>>>,
)
    requires
        parsed_alike(p1, p2),
    ensures
        parsed_row_outcome(p1, request) == parsed_row_outcome(p2, request),
{
    if let (Some(Some(f1)), Some(Some(f2))) = (p1, p2) {
        lemma_match_keys_are_not_identity_keys();
        lemma_string_any_plain(f1, f2, campaign_id_keys());
        lemma_string_any_plain(f1, f2, campaign_hash_keys());
        lemma_string_any_plain(f1, f2, batch_id_keys());
        lemma_string_any_plain(f1, f2, batch_hash_keys());
        lemma_string_any_plain(f1, f2, sender_domain_keys());
        lemma_string_any_plain(f1, f2, sender_keys());
        lemma_string_any_plain(f1, f2, manifest_keys());
        lemma_string_any_alike(f1, f2, recipient_keys());
        lemma_string_any_alike(f1, f2, trace_keys());
    }
}

/// The counts depend on the ledger only through each line's outcome.
proof fn lemma_tally_by_outcomes(
    l1: Seq<Option<Seq<char>>>,
    l2: Seq<Option<Seq<char>>>,
    q: PreflightRequestView,
)
    requires
        l1.len() == l2.len(),
        forall|i: int| 0 <= i < l1.len() ==> line_outcome(#[trigger] l1[i], q) == line_outcome(l2[i], q),
    ensures
        tally(l1, q) == tally(l2, q),
    decreases l1.len(),
{
    if l1.len() > 0 {
        assert(line_outcome(l1[l1.len() - 1], q) == line_outcome(l2[l2.len() - 1], q));
        lemma_tally_by_outcomes(l1.drop_last(), l2.drop_last(), q);
    }
}

/// The report depends on the ledger only through each line's outcome (blank,
/// invalid, unmatched, or matched with or without recipient and message
/// keys): ledgers whose lines have the same outcomes give the same report.
pub proof fn law_report_depends_only_on_line_outcomes(
    path: Option<Seq<char>>,
    required: bool,
    request: Option<PreflightRequestView>,
    expected_recipient_count: u64,
    interspire_campaign_id: Option<u64>,
    l1: Seq<Option<Seq<char>>>,
    l2: Seq<Option<Seq<char>>>,
)
    requires
        l1.len() == l2.len(),
        request matches Some(q) ==> forall|i: int|
            0 <= i < l1.len() ==> line_outcome(#[trigger] l1[i], q) == line_outcome(l2[i], q),
    ensures
        preflight_report(path, required, request, expected_recipient_count, interspire_campaign_id, Some(l1))
            == preflight_report(
            path,
            required,
            request,
            expected_recipient_count,
            interspire_campaign_id,
            Some(l2),
        ),
{
    if let Some(q) = request {
        lemma_tally_by_outcomes(l1, l2, q);
    }
}

/// Two ledger lines alike: both unreadable, or both read, both blank or both
/// not, with alike JSON parses.
pub open spec fn lines_alike(l1: Option<Seq<char>>, l2: Option<Seq<char>>) -> bool {
    match (l1, l2) {
        (None, None) => true,
        (Some(a), Some(b)) => (trim(a).len() == 0) == (trim(b).len() == 0) && parsed_alike(
            json_object_members(a),
            json_object_members(b),
        ),
        _ => false,
    }
}

/// Recipient and message values reach the preflight report only as counts:
/// two ledgers whose lines differ only in the values under recipient and
/// message keys (each pair both blank or both not) give the same report.
pub proof fn law_identity_values_reach_report_only_as_counts(
    path: Option<Seq<char>>,
    required: bool,
    request: Option<PreflightRequestView>,
    expected_recipient_count: u64,
    interspire_campaign_id: Option<u64>,
    l1: Seq<Option<Seq<char>>>,
    l2: Seq<Option<Seq<char>>>,
)
    requires
        l1.len() == l2.len(),
        forall|i: int| 0 <= i < l1.len() ==> lines_alike(#[trigger] l1[i], l2[i]),
    ensures
        preflight_report(path, required, request, expected_recipient_count, interspire_campaign_id, Some(l1))
            == preflight_report(
            path,
            required,
            request,
            expected_recipient_count,
            interspire_campaign_id,
            Some(l2),
        ),
{
    if let Some(q) = request {
        assert forall|i: int| 0 <= i < l1.len() implies line_outcome(#[trigger] l1[i], q)
            == line_outcome(l2[i], q) by {
            assert(lines_alike(l1[i], l2[i]));
            if let (Some(a), Some(b)) = (l1[i], l2[i]) {
                law_row_outcome_ignores_identity_values(
                    q,
                    json_object_members(a),
                    json_object_members(b),
                );
            }
        }
    }
    law_report_depends_only_on_line_outcomes(
        path,
        required,
        request,
        expected_recipient_count,
        interspire_campaign_id,
        l1,
        l2,
    );
}

/// A read ledger whose counts all agree (as many matched rows as expected,
/// each with a recipient key and a message key, no invalid line) gives a
/// verified report without warnings, carrying those counts.
pub proof fn law_agreeing_counts_verify(
    required: bool,
    q: PreflightRequestView,
    lines: Seq<Option<Seq<char>>>,
)
    requires
        tally(lines, q).matched == q.expected_rows,
        tally(lines, q).recipient == q.expected_rows,
        tally(lines, q).trace == q.expected_rows,
        tally(lines, q).invalid == 0,
    ensures
        ledger_report(required, q, lines).verified,
        ledger_report(required, q, lines).warnings.len() == 0,
        ledger_report(required, q, lines).matched_rows == q.expected_rows,
        ledger_report(required, q, lines).rows_with_recipient_key == q.expected_rows,
        ledger_report(required, q, lines).rows_with_trace_key == q.expected_rows,
        ledger_report(required, q, lines).invalid_rows == 0,
{
    let t = tally(lines, q);
    assert(ledger_warnings(t, q.expected_rows) =~= Seq::<Seq<char>>::empty());
}

/// A request is refused only on the checks it fails: one whose row count
/// matches, whose identifiers are valid, whose campaign id (if checked) is
/// the campaign being sent, whose sender domain and manifest (if given) are
/// valid, with a configured ledger path, gets the report of the ledger.
pub proof fn law_sound_request_reads_the_ledger(
    path: Seq<char>,
    required: bool,
    q: PreflightRequestView,
    expected_recipient_count: u64,
    interspire_campaign_id: Option<u64>,
    lines: Seq<Option<Seq<char>>>,
)
    requires
        trim(path).len() > 0,
        q.expected_rows == expected_recipient_count,
        valid_identifier(q.campaign_id),
        valid_identifier(q.batch_id),
        interspire_campaign_id matches Some(c) ==> trim(q.campaign_id) == decimal(c as nat),
        q.sender_domain matches Some(d) ==> valid_domain(d),
        q.expected_manifest_sha256 matches Some(m) ==> valid_sha256(m),
    ensures
        preflight_report(
            Some(path),
            required,
            Some(q),
            expected_recipient_count,
            interspire_campaign_id,
            Some(lines),
        ) == ledger_report(required, q, lines),
{
}

/// A row that names the requested campaign and batch, the requested sender
/// domain (in any case) and manifest (in any case) matches the request.
pub proof fn law_row_naming_the_request_matches(
    q: PreflightRequestView,
    d: Seq<char>,
    m: Seq<char>,
    row_domain: Seq<char>,
    row_manifest: Seq<char>,
)
    requires
        q.sender_domain == Some(d),
        q.expected_manifest_sha256 == Some(m),
        valid_domain(d),
        trim(d) == d,
        ascii_lower(row_domain) == ascii_lower(d),
        ascii_lower(trim(row_manifest)) == ascii_lower(trim(m)),
    ensures
        row_matches_request(
            q,
            seq![
                ("campaign_id"@, Some(q.campaign_id)),
                ("batch_id"@, Some(q.batch_id)),
                ("sender_domain"@, Some(row_domain)),
                ("manifest_sha256"@, Some(row_manifest)),
            ],
        ),
{
    reveal_strlit("campaign_id");
    reveal_strlit("campaignId");
    reveal_strlit("batch_id");
    reveal_strlit("batchId");
    reveal_strlit("sender_domain");
    reveal_strlit("manifest_sha256");
    let fields: Seq<(Seq<char>, Option<Seq<char>>)> = seq![
        ("campaign_id"@, Some(q.campaign_id)),
        ("batch_id"@, Some(q.batch_id)),
        ("sender_domain"@, Some(row_domain)),
        ("manifest_sha256"@, Some(row_manifest)),
    ];
    let f1 = fields.drop_first();
    let f2 = f1.drop_first();
    let f3 = f2.drop_first();
    assert(f1[0] == fields[1] && f2[0] == fields[2] && f3[0] == fields[3]);
    assert("campaign_id"@.len() == 11 && "batch_id"@.len() == 8 && "sender_domain"@.len() == 13
        && "manifest_sha256"@.len() == 15);
    assert("campaign_id"@ != "batch_id"@ && "campaign_id"@ != "sender_domain"@ && "batch_id"@
        != "sender_domain"@);
    assert("campaign_id"@ != "manifest_sha256"@ && "batch_id"@ != "manifest_sha256"@
        && "sender_domain"@ != "manifest_sha256"@);
    assert(member(fields, "campaign_id"@) == Some(Some(q.campaign_id)));
    assert(member(f1, "batch_id"@) == Some(Some(q.batch_id)));
    assert(member(fields, "batch_id"@) == Some(Some(q.batch_id)));
    assert(member(f2, "sender_domain"@) == Some(Some(row_domain)));
    assert(member(f1, "sender_domain"@) == Some(Some(row_domain)));
    assert(member(fields, "sender_domain"@) == Some(Some(row_domain)));
    assert(member(f3, "manifest_sha256"@) == Some(Some(row_manifest)));
    assert(member(f2, "manifest_sha256"@) == Some(Some(row_manifest)));
    assert(member(f1, "manifest_sha256"@) == Some(Some(row_manifest)));
    assert(member(fields, "manifest_sha256"@) == Some(Some(row_manifest)));
    assert(string_any(fields, campaign_id_keys()) == Some(q.campaign_id));
    assert(string_any(fields, batch_id_keys()) == Some(q.batch_id));
    assert(string_any(fields, sender_domain_keys()) == Some(row_domain));
    assert(string_any(fields, manifest_keys()) == Some(row_manifest));
    // the row's domain is the requested one in another case
    assert(row_domain.len() == d.len()) by {
        assert(ascii_lower(row_domain).len() == row_domain.len());
        assert(ascii_lower(d).len() == d.len());
    }
    assert forall|i: int| 0 <= i < row_domain.len() implies crate::text::lower_char(#[trigger] row_domain[i])
        == crate::text::lower_char(d[i]) by {
        assert(ascii_lower(row_domain)[i] == crate::text::lower_char(row_domain[i]));
        assert(ascii_lower(d)[i] == crate::text::lower_char(d[i]));
        assert(ascii_lower(row_domain)[i] == ascii_lower(d)[i]);
    }
    assert(!row_domain.contains('@')) by {
        if row_domain.contains('@') {
            let k = choose|k: int| 0 <= k < row_domain.len() && row_domain[k] == '@';
            assert(is_domain_char(d[k]));
            crate::email_laws::lemma_lower_char(d[k]);
        }
    }
    assert forall|i: int| 0 <= i < row_domain.len() implies is_domain_char(#[trigger] row_domain[i])
        && crate::text::is_ws(row_domain[i]) == crate::text::is_ws(d[i]) by {
        assert(is_domain_char(d[i]));
        crate::email_laws::lemma_lower_char(d[i]);
        crate::email_laws::lemma_lower_char(row_domain[i]);
        assert(crate::text::lower_char(row_domain[i]) == crate::text::lower_char(d[i]));
        if row_domain[i] == '.' || d[i] == '.' || row_domain[i] == '-' || d[i] == '-' {
            assert(row_domain[i] == d[i]);
        }
    }
    assert(!crate::text::is_ws(row_domain[0]) && !crate::text::is_ws(row_domain.last()));
    crate::email_laws::lemma_trim_fixed(row_domain);
    assert(row_domain[0] != '.') by {
        assert(crate::text::lower_char(row_domain[0]) == crate::text::lower_char(d[0]));
        crate::email_laws::lemma_lower_char_is(row_domain[0], '.');
        crate::email_laws::lemma_lower_char_is(d[0], '.');
    }
    assert(row_domain.last() != '.') by {
        let n = row_domain.len() - 1;
        assert(crate::text::lower_char(row_domain[n]) == crate::text::lower_char(d[n]));
        crate::email_laws::lemma_lower_char_is(row_domain[n], '.');
        crate::email_laws::lemma_lower_char_is(d[n], '.');
    }
    assert(row_domain.contains('.')) by {
        let k = choose|k: int| 0 <= k < d.len() && d[k] == '.';
        assert(crate::text::lower_char(row_domain[k]) == '.');
    }
    lemma_ascii_utf8_len(row_domain);
    lemma_ascii_utf8_len(d);
    assert(valid_domain(row_domain));
    assert(domain_from_address_or_domain(row_domain) == Some(ascii_lower(row_domain)));
    assert(row_sender_domain(fields) == Some(ascii_lower(trim(d))));
}

} // verus!
