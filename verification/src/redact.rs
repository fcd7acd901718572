//! Redaction of e-mail addresses, host names, URLs and secret-shaped text.

use vstd::prelude::*;
use crate::ip::{is_ip_addr, is_ip_addr_exec};
use crate::text::{
    all_alpha, all_digits, ascii_lower, contains_char, copy_range, extend_chars, extend_str,
    from_chars, is_alnum, is_ascii_alphabetic, is_ascii_alphanumeric, is_ascii_digit, rsplit_once,
    rsplit_once_chars, split, split_chars, split_once, split_once_chars, starts_with,
    starts_with_chars, to_ascii_lower, to_chars, trim, trim_chars, trim_end_char,
    trim_end_char_chars,
};

verus! {

// ---------------------------------------------------------------------------
// Tokens, hosts and e-mail addresses
// ---------------------------------------------------------------------------

/// Characters that may occur inside an address-like token.
pub open spec fn is_token_character(c: char) -> bool {
    is_alnum(c) || c == '@' || c == '.' || c == '_' || c == '-' || c == '+' || c == ':' || c
        == '/'
}

pub fn is_token_char(c: char) -> (b: bool)
    ensures
        b == is_token_character(c),
{
    is_ascii_alphanumeric(c) || c == '@' || c == '.' || c == '_' || c == '-' || c == '+' || c
        == ':' || c == '/'
}

/// `value` without a trailing `:port` made only of digits.
pub open spec fn without_port(value: Seq<char>) -> Seq<char> {
    match rsplit_once(value, ':') {
        Some((host, port)) => if all_digits(port) {
            host
        } else {
            value
        },
        None => value,
    }
}

/// `value` without one leading `www.`.
pub open spec fn strip_www(value: Seq<char>) -> Seq<char> {
    if starts_with(value, "www."@) {
        value.skip(4)
    } else {
        value
    }
}

/// A DNS label: non-empty, ASCII letters, digits and inner hyphens.
pub open spec fn is_label(label: Seq<char>) -> bool {
    &&& label.len() > 0
    &&& label[0] != '-'
    &&& label.last() != '-'
    &&& forall|i: int| 0 <= i < label.len() ==> is_alnum(#[trigger] label[i]) || label[i] == '-'
}

/// A token that names a host: an IP address (with an optional numeric
/// port), or at least two DNS labels ending in an alphabetic top-level label
/// of two or more letters (ignoring a leading `www.`, trailing dots and a
/// numeric port).
pub open spec fn is_host_shaped(value: Seq<char>) -> bool {
    let host = without_port(value);
    if is_ip_addr(host) {
        true
    } else {
        let labels = split(trim_end_char(strip_www(host), '.'), '.');
        &&& labels.len() >= 2
        &&& labels.last().len() >= 2
        &&& all_alpha(labels.last())
        &&& forall|i: int| 0 <= i < labels.len() ==> is_label(#[trigger] labels[i])
    }
}

/// A token shaped like an e-mail address: a non-empty local part, `@`, and a
/// host token.
pub open spec fn is_email_shaped(value: Seq<char>) -> bool {
    match split_once(value, '@') {
        Some((local, domain)) => local.len() > 0 && is_host_shaped(domain),
        None => false,
    }
}

fn all_digits_exec(s: &[char]) -> (b: bool)
    ensures
        b == all_digits(s@),
{
    let n = s.len();
    for i in 0..n
        invariant
            n == s@.len(),
            forall|k: int| 0 <= k < i ==> crate::text::is_digit(#[trigger] s@[k]),
    {
        if !is_ascii_digit(s[i]) {
            return false;
        }
    }
    true
}

fn all_alpha_exec(s: &[char]) -> (b: bool)
    ensures
        b == all_alpha(s@),
{
    let n = s.len();
    for i in 0..n
        invariant
            n == s@.len(),
            forall|k: int| 0 <= k < i ==> crate::text::is_alpha(#[trigger] s@[k]),
    {
        if !is_ascii_alphabetic(s[i]) {
            return false;
        }
    }
    true
}

fn is_label_exec(label: &[char]) -> (b: bool)
    ensures
        b == is_label(label@),
{
    let n = label.len();
    if n == 0 || label[0] == '-' || label[n - 1] == '-' {
        return false;
    }
    for i in 0..n
        invariant
            n == label@.len(),
            forall|k: int| 0 <= k < i ==> is_alnum(#[trigger] label@[k]) || label@[k] == '-',
    {
        if !(is_ascii_alphanumeric(label[i]) || label[i] == '-') {
            return false;
        }
    }
    true
}

fn without_port_exec(value: &[char]) -> (v: Vec<char>)
    ensures
        v@ == without_port(value@),
{
    match rsplit_once_chars(value, ':') {
        Some((host, port)) => {
            if all_digits_exec(port.as_slice()) {
                host
            } else {
                copy_range(value, 0, value.len())
            }
        },
        None => copy_range(value, 0, value.len()),
    }
}

pub fn is_host_token(value: &[char]) -> (b: bool)
    ensures
        b == is_host_shaped(value@),
{
    let host = without_port_exec(value);
    assert(value@.subrange(0, value@.len() as int) == value@);
    if is_ip_addr_exec(host.as_slice()) {
        return true;
    }
    let www = to_chars("www.");
    let stripped = if starts_with_chars(host.as_slice(), www.as_slice()) {
        proof {
            reveal_strlit("www.");
        }
        copy_range(host.as_slice(), 4, host.len())
    } else {
        copy_range(host.as_slice(), 0, host.len())
    };
    assert(host@.subrange(0, host@.len() as int) == host@);
    assert(stripped@ == strip_www(host@));
    let candidate = trim_end_char_chars(stripped.as_slice(), '.');
    let labels = split_chars(candidate.as_slice(), '.');
    let ghost ls = labels.deep_view();
    let n = labels.len();
    if n < 2 {
        return false;
    }
    let tld = &labels[n - 1];
    assert(tld@ == ls.last());
    if tld.len() < 2 || !all_alpha_exec(tld.as_slice()) {
        return false;
    }
    for i in 0..n
        invariant
            n == labels@.len(),
            ls == labels.deep_view(),
            ls == split(trim_end_char(strip_www(without_port(value@)), '.'), '.'),
            !is_ip_addr(without_port(value@)),
            forall|k: int| 0 <= k < i ==> is_label(#[trigger] ls[k]),
    {
        assert(labels@[i as int]@ == ls[i as int]);
        if !is_label_exec(labels[i].as_slice()) {
            assert(!is_label(ls[i as int]));
            return false;
        }
    }
    true
}

pub fn is_email_token(value: &[char]) -> (b: bool)
    ensures
        b == is_email_shaped(value@),
{
    match split_once_chars(value, '@') {
        Some((local, domain)) => local.len() > 0 && is_host_token(domain.as_slice()),
        None => false,
    }
}

// ---------------------------------------------------------------------------
// Single e-mail fields
// ---------------------------------------------------------------------------

/// The redacted form of an e-mail field: the first character of the local
/// part and the lower-cased domain, `[redacted-email]` for an address whose
/// domain is not a single host token, `[redacted]` when there is no `@`.
pub open spec fn redacted_email(value: Seq<char>) -> Seq<char> {
    let trimmed = trim(value);
    match split_once(trimmed, '@') {
        None => "[redacted]"@,
        Some((local, domain)) => if local.len() == 0 || domain.contains('@') || !is_host_shaped(
            domain,
        ) {
            "[redacted-email]"@
        } else {
            seq![local[0]] + "***@"@ + ascii_lower(domain)
        },
    }
}

/// Redacts one e-mail field, keeping only enough of it to tell domains apart.
pub fn redact_email(value: &str) -> (r: String)
    ensures
        r@ == redacted_email(value@),
{
    let chars = to_chars(value);
    let trimmed = trim_chars(chars.as_slice());
    match split_once_chars(trimmed.as_slice(), '@') {
        None => String::from_str("[redacted]"),
        Some((local, domain)) => {
            if local.len() == 0 || contains_char(domain.as_slice(), '@') || !is_host_token(
                domain.as_slice(),
            ) {
                String::from_str("[redacted-email]")
            } else {
                let mut out: Vec<char> = Vec::new();
                out.push(local[0]);
                extend_str(&mut out, "***@");
                let lowered = to_ascii_lower(domain.as_slice());
                extend_chars(&mut out, lowered.as_slice());
                assert(out@ == seq![local@[0]] + "***@"@ + ascii_lower(domain@));
                from_chars(out.as_slice())
            }
        },
    }
}

// ---------------------------------------------------------------------------
// Address-like tokens in free text
// ---------------------------------------------------------------------------

/// Which tokens a pass over free text redacts.
#[derive(Clone, Copy, PartialEq, Eq, Debug)]
pub enum TokenKind {
    Email,
    Host,
}

pub open spec fn token_matches(kind: TokenKind, token: Seq<char>) -> bool {
    match kind {
        TokenKind::Email => is_email_shaped(token),
        TokenKind::Host => is_host_shaped(token),
    }
}

pub open spec fn token_replacement(kind: TokenKind) -> Seq<char> {
    match kind {
        TokenKind::Email => "[redacted-email]"@,
        TokenKind::Host => "[redacted-host]"@,
    }
}

/// What a finished token becomes: its replacement when it matches, itself
/// otherwise.
pub open spec fn flushed(token: Seq<char>, kind: TokenKind) -> Seq<char> {
    if token.len() == 0 {
        seq![]
    } else if token_matches(kind, token) {
        token_replacement(kind)
    } else {
        token
    }
}

/// `s` with every maximal run of token characters replaced when it matches
/// `kind`; the run under way so far is `token`.
pub open spec fn tokens_redacted_acc(token: Seq<char>, s: Seq<char>, kind: TokenKind) -> Seq<
    char,
>
    decreases s.len(),
{
    if s.len() == 0 {
        flushed(token, kind)
    } else if is_token_character(s[0]) {
        tokens_redacted_acc(token.push(s[0]), s.drop_first(), kind)
    } else {
        flushed(token, kind) + seq![s[0]] + tokens_redacted_acc(seq![], s.drop_first(), kind)
    }
}

/// `s` with every maximal run of token characters that matches `kind`
/// replaced by the kind's placeholder.
pub open spec fn tokens_redacted(s: Seq<char>, kind: TokenKind) -> Seq<char> {
    tokens_redacted_acc(seq![], s, kind)
}

fn token_matches_exec(kind: TokenKind, token: &[char]) -> (b: bool)
    ensures
        b == token_matches(kind, token@),
{
    match kind {
        TokenKind::Email => is_email_token(token),
        TokenKind::Host => is_host_token(token),
    }
}

/// Ends the token under way: appends what it becomes to `output`.
fn flush_redacted_token(output: &mut Vec<char>, token: &mut Vec<char>, kind: TokenKind)
    ensures
        final(output)@ == old(output)@ + flushed(old(token)@, kind),
        final(token)@ == Seq::<char>::empty(),
{
    if token.len() == 0 {
        assert(old(output)@ + Seq::<char>::empty() == old(output)@);
        return;
    }
    if token_matches_exec(kind, token.as_slice()) {
        match kind {
            TokenKind::Email => extend_str(output, "[redacted-email]"),
            TokenKind::Host => extend_str(output, "[redacted-host]"),
        }
    } else {
        extend_chars(output, token.as_slice());
    }
    token.clear();
}

fn redact_tokens(input: &[char], kind: TokenKind) -> (r: Vec<char>)
    ensures
        r@ == tokens_redacted(input@, kind),
{
    let mut output: Vec<char> = Vec::new();
    let mut token: Vec<char> = Vec::new();
    let n = input.len();
    assert(input@.skip(0) == input@);
    for i in 0..n
        invariant
            n == input@.len(),
            tokens_redacted(input@, kind) == output@ + tokens_redacted_acc(
                token@,
                input@.skip(i as int),
                kind,
            ),
    {
        let ch = input[i];
        assert(input@.skip(i as int).drop_first() == input@.skip(i + 1));
        assert(input@.skip(i as int)[0] == ch);
        if is_token_char(ch) {
            token.push(ch);
        } else {
            flush_redacted_token(&mut output, &mut token, kind);
            output.push(ch);
        }
    }
    flush_redacted_token(&mut output, &mut token, kind);
    output
}

fn redact_email_addresses(input: &[char]) -> (r: Vec<char>)
    ensures
        r@ == tokens_redacted(input@, TokenKind::Email),
{
    redact_tokens(input, TokenKind::Email)
}

fn redact_host_tokens(input: &[char]) -> (r: Vec<char>)
    ensures
        r@ == tokens_redacted(input@, TokenKind::Host),
{
    redact_tokens(input, TokenKind::Host)
}

// ---------------------------------------------------------------------------
// URLs
// ---------------------------------------------------------------------------

/// Where the first `http://` or `https://` starts.
pub open spec fn url_start(s: Seq<char>) -> Option<int> {
    match (crate::text::find(s, "http://"@), crate::text::find(s, "https://"@)) {
        (Some(a), Some(b)) => Some(if a <= b {
            a
        } else {
            b
        }),
        (Some(a), None) => Some(a),
        (None, Some(b)) => Some(b),
        (None, None) => None,
    }
}

/// Characters that end a URL.
pub open spec fn is_url_stop(c: char) -> bool {
    crate::text::is_ws(c) || c == '"' || c == '\'' || c == '<' || c == '>'
}

/// The length of the URL at the start of `s`: up to the first stop character.
pub open spec fn url_len(s: Seq<char>) -> nat
    decreases s.len(),
{
    if s.len() == 0 || is_url_stop(s[0]) {
        0
    } else {
        1 + url_len(s.drop_first())
    }
}

/// Punctuation that a URL does not keep at its end.
pub open spec fn is_url_trailing(c: char) -> bool {
    c == ',' || c == '.' || c == ';' || c == ':' || c == ')' || c == ']' || c == '}'
}

/// How many trailing punctuation characters `s` ends with.
pub open spec fn trailing_len(s: Seq<char>) -> nat
    decreases s.len(),
{
    if s.len() > 0 && is_url_trailing(s.last()) {
        1 + trailing_len(s.drop_last())
    } else {
        0
    }
}

pub proof fn lemma_url_len_bound(s: Seq<char>)
    ensures
        url_len(s) <= s.len(),
        forall|i: int| 0 <= i < url_len(s) ==> !is_url_stop(#[trigger] s[i]),
        url_len(s) < s.len() ==> is_url_stop(s[url_len(s) as int]),
    decreases s.len(),
{
    if s.len() > 0 && !is_url_stop(s[0]) {
        lemma_url_len_bound(s.drop_first());
        assert forall|i: int| 0 <= i < url_len(s) implies !is_url_stop(#[trigger] s[i]) by {
            if i > 0 {
                assert(s[i] == s.drop_first()[i - 1]);
            }
        }
    }
}

pub proof fn lemma_trailing_len_bound(s: Seq<char>)
    ensures
        trailing_len(s) <= s.len(),
    decreases s.len(),
{
    if s.len() > 0 && is_url_trailing(s.last()) {
        lemma_trailing_len_bound(s.drop_last());
    }
}

/// A URL starts with a character that does not end it, so it is never empty.
pub proof fn lemma_url_start_progress(s: Seq<char>)
    ensures
        url_start(s) matches Some(k) ==> (0 <= k < s.len() && url_len(s.skip(k)) >= 1 && k
            + url_len(s.skip(k)) <= s.len() && trailing_len(s.subrange(k, k + url_len(s.skip(k))))
            <= url_len(s.skip(k))),
{
    reveal_strlit("http://");
    reveal_strlit("https://");
    crate::text::lemma_find(s, "http://"@);
    crate::text::lemma_find(s, "https://"@);
    if let Some(k) = url_start(s) {
        assert(s.subrange(k, k + 1)[0] == s[k]);
        assert(s[k] == 'h');
        assert(s.skip(k)[0] == 'h');
        lemma_url_len_bound(s.skip(k));
        lemma_trailing_len_bound(s.subrange(k, k + url_len(s.skip(k))));
    }
}

/// `s` with every URL replaced by `[redacted-url]`, keeping the punctuation
/// that followed it.
pub open spec fn urls_redacted(s: Seq<char>) -> Seq<char>
    decreases s.len(),
{
    match url_start(s) {
        None => s,
        Some(k) => {
            proof {
                lemma_url_start_progress(s);
            }
            let e = k + url_len(s.skip(k));
            let t = trailing_len(s.subrange(k, e));
            s.take(k) + "[redacted-url]"@ + s.subrange(e - t, e) + urls_redacted(s.skip(e))
        },
    }
}

fn find_url_start(s: &[char], from: usize) -> (r: Option<usize>)
    requires
        from <= s@.len(),
    ensures
        r matches Some(k) ==> url_start(s@.skip(from as int)) == Some(k as int),
        r is None ==> url_start(s@.skip(from as int)) is None,
{
    let http = to_chars("http://");
    let https = to_chars("https://");
    match (
        crate::text::find_chars_from(s, http.as_slice(), from),
        crate::text::find_chars_from(s, https.as_slice(), from),
    ) {
        (Some(a), Some(b)) => Some(
            if a <= b {
                a
            } else {
                b
            },
        ),
        (Some(a), None) => Some(a),
        (None, Some(b)) => Some(b),
        (None, None) => None,
    }
}

/// Where the URL starting at `start` ends.
fn url_end(s: &[char], start: usize) -> (end: usize)
    requires
        start <= s@.len(),
    ensures
        end == start + url_len(s@.skip(start as int)),
        end <= s@.len(),
{
    let n = s.len();
    let mut end = start;
    assert(s@.skip(start as int) == s@.skip(end as int));
    while end < n && !(crate::text::is_whitespace(s[end]) || s[end] == '"' || s[end] == '\''
        || s[end] == '<' || s[end] == '>')
        invariant
            n == s@.len(),
            start <= end <= n,
            url_len(s@.skip(start as int)) == (end - start) + url_len(s@.skip(end as int)),
        decreases n - end,
    {
        assert(s@.skip(end as int)[0] == s@[end as int]);
        assert(s@.skip(end as int).drop_first() == s@.skip(end + 1));
        end = end + 1;
    }
    if end < n {
        assert(s@.skip(end as int)[0] == s@[end as int]);
    }
    end
}

/// `value` split before the punctuation it ends with: the URL, then the
/// trailing `,` `.` `;` `:` `)` `]` `}` characters.
fn trim_trailing_url_punctuation(value: &[char]) -> (r: (Vec<char>, Vec<char>))
    ensures
        trailing_len(value@) <= value@.len(),
        r.0@ == value@.take(value@.len() - trailing_len(value@)),
        r.1@ == value@.skip(value@.len() - trailing_len(value@)),
{
    let n = value.len();
    let mut t: usize = 0;
    assert(value@.take(n as int) == value@);
    while t < n && (value[n - 1 - t] == ',' || value[n - 1 - t] == '.' || value[n - 1 - t] == ';'
        || value[n - 1 - t] == ':' || value[n - 1 - t] == ')' || value[n - 1 - t] == ']'
        || value[n - 1 - t] == '}')
        invariant
            n == value@.len(),
            t <= n,
            trailing_len(value@) == t + trailing_len(value@.take(n - t)),
        decreases n - t,
    {
        assert(value@.take(n - t).last() == value@[n - 1 - t]);
        assert(value@.take(n - t).drop_last() == value@.take(n - t - 1));
        t = t + 1;
    }
    if t < n {
        assert(value@.take(n - t).last() == value@[n - 1 - t]);
    }
    (copy_range(value, 0, n - t), copy_range(value, n - t, n))
}

/// One step of `urls_redacted` at position `cursor` of `s`.
proof fn lemma_urls_redacted_step(s: Seq<char>, cursor: int, offset: int, end: int, t: int)
    requires
        0 <= cursor <= s.len(),
        url_start(s.skip(cursor)) == Some(offset),
        end == cursor + offset + url_len(s.skip(cursor + offset)),
        t == trailing_len(s.subrange(cursor + offset, end)),
    ensures
        cursor + offset < end <= s.len(),
        t <= end - cursor - offset,
        urls_redacted(s.skip(cursor)) == s.subrange(cursor, cursor + offset) + "[redacted-url]"@
            + s.subrange(end - t, end) + urls_redacted(s.skip(end)),
{
    let rest = s.skip(cursor);
    lemma_url_start_progress(rest);
    assert(rest.skip(offset) == s.skip(cursor + offset));
    let e = offset + url_len(rest.skip(offset));
    assert(rest.subrange(offset, e) == s.subrange(cursor + offset, end));
    assert(rest.take(offset) == s.subrange(cursor, cursor + offset));
    assert(rest.subrange(e - t, e) == s.subrange(end - t, end));
    assert(rest.skip(e) == s.skip(end));
}

fn redact_urls(s: &[char]) -> (r: Vec<char>)
    ensures
        r@ == urls_redacted(s@),
{
    let n = s.len();
    let mut out: Vec<char> = Vec::new();
    let mut cursor: usize = 0;
    assert(s@.skip(0) == s@);
    while cursor < n
        invariant
            n == s@.len(),
            cursor <= n,
            urls_redacted(s@) == out@ + urls_redacted(s@.skip(cursor as int)),
        decreases n - cursor,
    {
        match find_url_start(s, cursor) {
            None => {
                let tail = copy_range(s, cursor, n);
                extend_chars(&mut out, tail.as_slice());
                return out;
            },
            Some(offset) => {
                proof {
                    lemma_url_start_progress(s@.skip(cursor as int));
                }
                let start = cursor + offset;
                let end = url_end(s, start);
                let url = copy_range(s, start, end);
                let (_kept, trailing) = trim_trailing_url_punctuation(url.as_slice());
                let t = trailing.len();
                proof {
                    lemma_urls_redacted_step(s@, cursor as int, offset as int, end as int, t as int);
                }
                let before = copy_range(s, cursor, start);
                extend_chars(&mut out, before.as_slice());
                extend_str(&mut out, "[redacted-url]");
                assert(trailing@ == s@.subrange(end - t, end as int));
                extend_chars(&mut out, trailing.as_slice());
                cursor = end;
            },
        }
    }
    proof {
        reveal_strlit("http://");
        reveal_strlit("https://");
        assert(s@.skip(n as int) == Seq::<char>::empty());
        assert(urls_redacted(Seq::<char>::empty()) == Seq::<char>::empty());
        assert(out@ + Seq::<char>::empty() == out@);
    }
    out
}

// ---------------------------------------------------------------------------
// Secret markers (`password`, `token`, ...)
// ---------------------------------------------------------------------------

/// Characters of a separator word between a marker and its value.
pub open spec fn is_separator_char(c: char) -> bool {
    c == ':' || c == '=' || c == '-' || c == '>' || c == '"' || c == '\''
}

/// A word made only of separator characters, such as `:` or `=`.
pub open spec fn is_separator_word(part: Seq<char>) -> bool {
    forall|i: int| 0 <= i < part.len() ==> is_separator_char(#[trigger] part[i])
}

/// The number of characters before the first token character of `s` (all of
/// them when there is none).
pub open spec fn leading_len(s: Seq<char>) -> nat
    decreases s.len(),
{
    if s.len() == 0 || is_token_character(s[0]) {
        0
    } else {
        1 + leading_len(s.drop_first())
    }
}

/// The position just after the last token character of `s`.
pub open spec fn last_token_end(s: Seq<char>) -> Option<nat>
    decreases s.len(),
{
    if s.len() == 0 {
        None
    } else if is_token_character(s.last()) {
        Some(s.len())
    } else {
        last_token_end(s.drop_last())
    }
}

/// A secret value word with its token characters replaced by `[redacted]`,
/// keeping surrounding punctuation such as quotes.
pub open spec fn secret_value_redacted(part: Seq<char>) -> Seq<char> {
    let lead = leading_len(part);
    let trail = match last_token_end(part) {
        Some(e) => e,
        None => lead,
    };
    part.take(lead as int) + "[redacted]"@ + part.skip(trail as int)
}

/// Characters that show a marker word already carries its value.
pub open spec fn is_value_char(c: char) -> bool {
    is_alnum(c) || c == '@' || c == '/' || c == '.'
}

/// A word holding `marker` with nothing value-like after it, so the value
/// follows in a later word.
pub open spec fn needs_following_redaction(part: Seq<char>, marker: Seq<char>) -> bool {
    match crate::text::find(ascii_lower(part), marker) {
        None => false,
        Some(k) => {
            let after = part.skip(k + marker.len());
            forall|i: int| 0 <= i < after.len() ==> !is_value_char(#[trigger] after[i])
        },
    }
}

/// The words of a text that holds `marker`, with marker words, and the value
/// words that follow them, redacted; `redact_next` says that a value is due.
pub open spec fn marker_pass(words: Seq<Seq<char>>, marker: Seq<char>, redact_next: bool) -> Seq<
    Seq<char>,
>
    decreases words.len(),
{
    if words.len() == 0 {
        seq![]
    } else {
        let w = words[0];
        let rest = words.drop_first();
        if redact_next {
            if is_separator_word(w) {
                seq![w] + marker_pass(rest, marker, true)
            } else {
                seq![secret_value_redacted(w)] + marker_pass(rest, marker, false)
            }
        } else if crate::text::contains_seq(ascii_lower(w), marker) {
            seq!["[redacted]"@] + marker_pass(rest, marker, needs_following_redaction(w, marker))
        } else {
            seq![w] + marker_pass(rest, marker, false)
        }
    }
}

/// `input` with the words around `marker` redacted; unchanged when `marker`
/// does not occur (ignoring ASCII case).
pub open spec fn marker_redacted(input: Seq<char>, marker: Seq<char>) -> Seq<char> {
    if !crate::text::contains_seq(ascii_lower(input), marker) {
        input
    } else {
        crate::text::join(marker_pass(crate::text::words(input), marker, false), " "@)
    }
}

fn is_secret_separator(part: &[char]) -> (b: bool)
    ensures
        b == is_separator_word(part@),
{
    let n = part.len();
    for i in 0..n
        invariant
            n == part@.len(),
            forall|k: int| 0 <= k < i ==> is_separator_char(#[trigger] part@[k]),
    {
        let c = part[i];
        if !(c == ':' || c == '=' || c == '-' || c == '>' || c == '"' || c == '\'') {
            return false;
        }
    }
    true
}

fn leading_len_exec(s: &[char]) -> (r: usize)
    ensures
        r == leading_len(s@),
        r <= s@.len(),
{
    let n = s.len();
    let mut i: usize = 0;
    assert(s@.skip(0) == s@);
    while i < n && !is_token_char(s[i])
        invariant
            n == s@.len(),
            i <= n,
            leading_len(s@) == i + leading_len(s@.skip(i as int)),
        decreases n - i,
    {
        assert(s@.skip(i as int)[0] == s@[i as int]);
        assert(s@.skip(i as int).drop_first() == s@.skip(i + 1));
        i = i + 1;
    }
    if i < n {
        assert(s@.skip(i as int)[0] == s@[i as int]);
    }
    i
}

fn last_token_end_exec(s: &[char]) -> (r: Option<usize>)
    ensures
        r matches Some(e) ==> (last_token_end(s@) == Some(e as nat) && e <= s@.len()),
        r is None ==> last_token_end(s@) is None,
{
    let mut i: usize = s.len();
    assert(s@.take(i as int) == s@);
    while i > 0
        invariant
            i <= s@.len(),
            last_token_end(s@) == last_token_end(s@.take(i as int)),
        decreases i,
    {
        assert(s@.take(i as int).last() == s@[i - 1]);
        if is_token_char(s[i - 1]) {
            return Some(i);
        }
        assert(s@.take(i as int).drop_last() == s@.take(i - 1));
        i = i - 1;
    }
    None
}

pub proof fn lemma_leading_len_bound(s: Seq<char>)
    ensures
        leading_len(s) <= s.len(),
    decreases s.len(),
{
    if s.len() > 0 && !is_token_character(s[0]) {
        lemma_leading_len_bound(s.drop_first());
    }
}

pub proof fn lemma_last_token_end_bound(s: Seq<char>)
    ensures
        last_token_end(s) matches Some(e) ==> e <= s.len(),
    decreases s.len(),
{
    if s.len() > 0 && !is_token_character(s.last()) {
        lemma_last_token_end_bound(s.drop_last());
    }
}

fn redact_secret_value_token(part: &[char]) -> (r: Vec<char>)
    ensures
        r@ == secret_value_redacted(part@),
{
    let lead = leading_len_exec(part);
    let trail = match last_token_end_exec(part) {
        Some(e) => e,
        None => lead,
    };
    let mut out = copy_range(part, 0, lead);
    extend_str(&mut out, "[redacted]");
    let tail = copy_range(part, trail, part.len());
    extend_chars(&mut out, tail.as_slice());
    assert(part@.subrange(0, lead as int) == part@.take(lead as int));
    assert(part@.subrange(trail as int, part@.len() as int) == part@.skip(trail as int));
    out
}

fn has_value_char(s: &[char]) -> (b: bool)
    ensures
        b == !(forall|i: int| 0 <= i < s@.len() ==> !is_value_char(#[trigger] s@[i])),
{
    let m = s.len();
    for i in 0..m
        invariant
            m == s@.len(),
            forall|j: int| 0 <= j < i ==> !is_value_char(#[trigger] s@[j]),
    {
        let c = s[i];
        if is_ascii_alphanumeric(c) || c == '@' || c == '/' || c == '.' {
            assert(is_value_char(s@[i as int]));
            return true;
        }
    }
    false
}

fn marker_needs_following_secret_redaction(part: &[char], marker: &[char]) -> (b: bool)
    ensures
        b == needs_following_redaction(part@, marker@),
{
    let lower = to_ascii_lower(part);
    match crate::text::find_chars(lower.as_slice(), marker) {
        None => false,
        Some(k) => {
            proof {
                crate::text::lemma_find(lower@, marker@);
            }
            let n = part.len();
            let start = k + marker.len();
            let after = copy_range(part, start, n);
            assert(after@ == part@.skip(start as int));
            !has_value_char(after.as_slice())
        },
    }
}

fn redact_marker(input: &[char], marker: &[char]) -> (r: Vec<char>)
    ensures
        r@ == marker_redacted(input@, marker@),
{
    let lower = to_ascii_lower(input);
    if !crate::text::contains_chars(lower.as_slice(), marker) {
        return copy_range(input, 0, input.len());
    }
    let parts = crate::text::words_chars(input);
    let ghost ws = parts.deep_view();
    let n = parts.len();
    let mut output: Vec<Vec<char>> = Vec::new();
    let mut redact_next = false;
    assert(ws.skip(0) == ws);
    assert(output.deep_view() =~= Seq::<Seq<char>>::empty());
    for i in 0..n
        invariant
            n == parts@.len(),
            ws == parts.deep_view(),
            marker_pass(ws, marker@, false) == output.deep_view() + marker_pass(
                ws.skip(i as int),
                marker@,
                redact_next,
            ),
    {
        let part = parts[i].as_slice();
        assert(part@ == ws[i as int]);
        assert(ws.skip(i as int)[0] == ws[i as int]);
        assert(ws.skip(i as int).drop_first() == ws.skip(i + 1));
        let ghost before = output.deep_view();
        let item: Vec<char>;
        if redact_next {
            if is_secret_separator(part) {
                item = copy_range(part, 0, part.len());
            } else {
                item = redact_secret_value_token(part);
                redact_next = false;
            }
        } else {
            let part_lower = to_ascii_lower(part);
            if crate::text::contains_chars(part_lower.as_slice(), marker) {
                let mut placeholder: Vec<char> = Vec::new();
                extend_str(&mut placeholder, "[redacted]");
                item = placeholder;
                redact_next = marker_needs_following_secret_redaction(part, marker);
            } else {
                item = copy_range(part, 0, part.len());
            }
        }
        assert(part@.subrange(0, part@.len() as int) == part@);
        assert(item.deep_view() =~= item@);
        output.push(item);
        assert(output.deep_view() =~= before.push(item@));
    }
    let sep = vec![' '];
    proof {
        reveal_strlit(" ");
        assert(sep@ == " "@);
        assert(ws.skip(n as int) == Seq::<Seq<char>>::empty());
        assert(output.deep_view() + Seq::<Seq<char>>::empty() == output.deep_view());
    }
    crate::text::join_chars(&output, sep.as_slice())
}

// ---------------------------------------------------------------------------
// Free text
// ---------------------------------------------------------------------------

/// `s` with the words around every secret marker redacted, marker by marker.
pub open spec fn markers_redacted(s0: Seq<char>) -> Seq<char> {
    let s1 = marker_redacted(s0, "password"@);
    let s2 = marker_redacted(s1, "passwd"@);
    let s3 = marker_redacted(s2, "usertoken"@);
    let s4 = marker_redacted(s3, "token"@);
    let s5 = marker_redacted(s4, "cookie"@);
    let s6 = marker_redacted(s5, "license"@);
    let s7 = marker_redacted(s6, "api_key"@);
    let s8 = marker_redacted(s7, "smtp_password"@);
    let s9 = marker_redacted(s8, "bounce_password"@);
    s9
}

/// Free text with secrets, URLs, e-mail addresses and host names redacted,
/// in that order.
pub open spec fn redacted_text(s: Seq<char>) -> Seq<char> {
    tokens_redacted(
        tokens_redacted(urls_redacted(markers_redacted(s)), TokenKind::Email),
        TokenKind::Host,
    )
}

fn redact_marker_named(input: &[char], marker: &str) -> (r: Vec<char>)
    ensures
        r@ == marker_redacted(input@, marker@),
{
    let m = to_chars(marker);
    redact_marker(input, m.as_slice())
}

/// Redacts secrets after known markers, URLs, e-mail addresses and host
/// names from free text such as upstream error messages.
pub fn redact_sensitive_text(value: &str) -> (r: String)
    ensures
        r@ == redacted_text(value@),
{
    let output = to_chars(value);
    let output = redact_marker_named(output.as_slice(), "password");
    let output = redact_marker_named(output.as_slice(), "passwd");
    let output = redact_marker_named(output.as_slice(), "usertoken");
    let output = redact_marker_named(output.as_slice(), "token");
    let output = redact_marker_named(output.as_slice(), "cookie");
    let output = redact_marker_named(output.as_slice(), "license");
    let output = redact_marker_named(output.as_slice(), "api_key");
    let output = redact_marker_named(output.as_slice(), "smtp_password");
    let output = redact_marker_named(output.as_slice(), "bounce_password");
    let output = redact_urls(output.as_slice());
    let output = redact_email_addresses(output.as_slice());
    let output = redact_host_tokens(output.as_slice());
    from_chars(output.as_slice())
}

// ---------------------------------------------------------------------------
// Stable e-mail fingerprints
// ---------------------------------------------------------------------------

/// The fingerprint of an e-mail address: the first 12 bytes of the SHA-256
/// digest of the trimmed, ASCII-lower-cased address, in hexadecimal.
pub open spec fn email_hash_of(value: Seq<char>) -> Seq<char> {
    crate::digest::digest_hex(ascii_lower(trim(value)), 12)
}

/// A stable fingerprint of an e-mail address that does not reveal it.
pub fn email_hash(value: &str) -> (r: String)
    ensures
        r@ == email_hash_of(value@),
        r@.len() == 24,
{
    let chars = to_chars(value);
    let trimmed = trim_chars(chars.as_slice());
    let lowered = to_ascii_lower(trimmed.as_slice());
    let normalized = from_chars(lowered.as_slice());
    crate::digest::digest_hex_prefix(&normalized, 12)
}

/// The e-mail fingerprint ignores ASCII case and surrounding whitespace.
pub proof fn law_email_hash_ignores_case_and_whitespace(value: Seq<char>)
    ensures
        email_hash_of(ascii_lower(value)) == email_hash_of(value),
        email_hash_of(trim(value)) == email_hash_of(value),
{
    crate::text::lemma_trim_lower_commute(value);
    crate::text::lemma_ascii_lower_idempotent(trim(value));
    crate::text::lemma_trim_idempotent(value);
}

} // verus!
