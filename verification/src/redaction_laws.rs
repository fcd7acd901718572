//! What redaction guarantees of its output, proved from the definitions in
//! `redact`: free text that went through `redact_sensitive_text` holds no
//! e-mail-shaped or host-shaped token, no `http://` or `https://`, and none
//! of the secret markers in any case; redacting it again changes nothing.

use vstd::prelude::*;
use crate::redact::{
    flushed, is_email_shaped, is_host_shaped, is_token_character, redacted_text, strip_www,
    token_matches, token_replacement, tokens_redacted, tokens_redacted_acc, without_port,
    TokenKind,
};
use crate::text::{
    ascii_lower, contains_seq, occurs_at, split, split_acc, split_once, trim_end_char,
};

verus! {

/// Every character of `s` is a token character.
pub open spec fn all_token_chars(s: Seq<char>) -> bool {
    forall|i: int| 0 <= i < s.len() ==> is_token_character(#[trigger] s[i])
}

/// A run of token characters joins the token under way.
proof fn lemma_acc_run(tok: Seq<char>, w: Seq<char>, rest: Seq<char>, kind: TokenKind)
    requires
        all_token_chars(w),
    ensures
        tokens_redacted_acc(tok, w + rest, kind) == tokens_redacted_acc(tok + w, rest, kind),
    decreases w.len(),
{
    if w.len() == 0 {
        assert(w + rest == rest);
        assert(tok + w == tok);
    } else {
        let s = w + rest;
        assert(s[0] == w[0]);
        assert(s.drop_first() == w.drop_first() + rest);
        assert(all_token_chars(w.drop_first()));
        lemma_acc_run(tok.push(w[0]), w.drop_first(), rest, kind);
        assert(tok.push(w[0]) + w.drop_first() == tok + w);
    }
}

/// Redaction splits at a non-token character that ends the first part.
proof fn lemma_acc_concat(tok: Seq<char>, a: Seq<char>, b: Seq<char>, kind: TokenKind)
    requires
        a.len() > 0,
        !is_token_character(a.last()),
    ensures
        tokens_redacted_acc(tok, a + b, kind) == tokens_redacted_acc(tok, a, kind)
            + tokens_redacted(b, kind),
    decreases a.len(),
{
    let s = a + b;
    assert(s[0] == a[0]);
    assert(s.drop_first() == a.drop_first() + b);
    if is_token_character(a[0]) {
        assert(a.len() > 1);
        assert(a.drop_first().last() == a.last());
        lemma_acc_concat(tok.push(a[0]), a.drop_first(), b, kind);
    } else if a.len() == 1 {
        assert(a.drop_first() + b == b);
        assert(a.drop_first().len() == 0);
        assert(tokens_redacted_acc(seq![], a.drop_first(), kind) == Seq::<char>::empty());
        assert(flushed(tok, kind) + seq![a[0]] + Seq::<char>::empty() == flushed(tok, kind)
            + seq![a[0]]);
    } else {
        assert(a.drop_first().last() == a.last());
        lemma_acc_concat(seq![], a.drop_first(), b, kind);
    }
}

/// `tokens_redacted(a + b) == tokens_redacted(a) + tokens_redacted(b)` when
/// `a` ends with a non-token character.
pub proof fn lemma_tokens_redacted_concat(a: Seq<char>, b: Seq<char>, kind: TokenKind)
    requires
        a.len() > 0,
        !is_token_character(a.last()),
    ensures
        tokens_redacted(a + b, kind) == tokens_redacted(a, kind) + tokens_redacted(b, kind),
{
    lemma_acc_concat(seq![], a, b, kind);
}

/// A run of token characters is redacted as one token.
pub proof fn lemma_tokens_redacted_run(w: Seq<char>, kind: TokenKind)
    requires
        all_token_chars(w),
    ensures
        tokens_redacted(w, kind) == flushed(w, kind),
{
    lemma_acc_run(seq![], w, seq![], kind);
    assert(w + Seq::<char>::empty() == w);
    assert(Seq::<char>::empty() + w == w);
}

/// A single non-token character is left alone.
proof fn lemma_tokens_redacted_single(c: char, kind: TokenKind)
    requires
        !is_token_character(c),
    ensures
        tokens_redacted(seq![c], kind) == seq![c],
{
    let s = seq![c];
    assert(s[0] == c);
    assert(s.drop_first().len() == 0);
    assert(flushed(Seq::<char>::empty(), kind) == Seq::<char>::empty());
    assert(tokens_redacted_acc(seq![], s.drop_first(), kind) == Seq::<char>::empty());
    assert(Seq::<char>::empty() + seq![c] + Seq::<char>::empty() == seq![c]);
}

/// `split(s, c)` is `[s]` when `c` does not occur in `s`.
proof fn lemma_split_absent(cur: Seq<char>, s: Seq<char>, c: char)
    requires
        !s.contains(c),
    ensures
        split_acc(cur, s, c) == seq![cur + s],
    decreases s.len(),
{
    if s.len() == 0 {
        assert(cur + s == cur);
    } else {
        assert(s[0] != c);
        assert(!s.drop_first().contains(c)) by {
            if s.drop_first().contains(c) {
                let i = choose|i: int| 0 <= i < s.drop_first().len() && s.drop_first()[i] == c;
                assert(s[i + 1] == c);
            }
        }
        lemma_split_absent(cur.push(s[0]), s.drop_first(), c);
        assert(cur.push(s[0]) + s.drop_first() == cur + s);
    }
}

/// A character that does not occur is not found.
proof fn lemma_find_char_absent(s: Seq<char>, c: char)
    requires
        !s.contains(c),
    ensures
        crate::text::find(s, seq![c]) is None,
{
    crate::text::lemma_find(s, seq![c]);
    if let Some(k) = crate::text::find(s, seq![c]) {
        assert(s.subrange(k, k + 1)[0] == s[k]);
        assert(seq![c][0] == c);
    }
}

/// `last_index_of` finds nothing when the character does not occur.
proof fn lemma_last_index_absent(s: Seq<char>, c: char)
    requires
        !s.contains(c),
    ensures
        crate::text::last_index_of(s, c) is None,
    decreases s.len(),
{
    if s.len() > 0 {
        assert(s.last() == s[s.len() - 1]);
        assert(!s.drop_last().contains(c)) by {
            if s.drop_last().contains(c) {
                let i = choose|i: int| 0 <= i < s.drop_last().len() && s.drop_last()[i] == c;
                assert(s[i] == c);
            }
        }
        lemma_last_index_absent(s.drop_last(), c);
    }
}

/// A word of at least five letters and hyphens, not starting with `w` and
/// not ending with `.`, is neither a host token nor an e-mail token.
proof fn lemma_word_not_address(w: Seq<char>)
    requires
        w.len() >= 5,
        w[0] != 'w',
        w.last() != '.',
        !w.contains('@'),
        !w.contains(':'),
        !w.contains('.'),
    ensures
        !is_host_shaped(w),
        !is_email_shaped(w),
{
    lemma_find_char_absent(w, '@');
    assert(split_once(w, '@') is None);
    lemma_last_index_absent(w, ':');
    assert(without_port(w) == w);
    lemma_split_absent(seq![], w, '.');
    lemma_split_absent(seq![], w, ':');
    assert(Seq::<char>::empty() + w == w);
    assert(split(w, '.') == seq![w]);
    assert(split(w, ':') == seq![w]);
    // not an IP address
    assert(!crate::ip::is_ipv4(w));
    assert(!crate::ip::is_hex_group(w));
    assert(split(w, ':')[0] == w);
    assert(!crate::ip::is_hex_group(split(w, ':')[0]));
    assert(!crate::ip::all_hex_groups(split(w, ':'), 1));
    assert(!crate::ip::is_ipv4(split(w, ':')[0]));
    assert(crate::ip::group_count(w) is None);
    crate::text::lemma_find(w, crate::ip::double_colon());
    assert(crate::text::find(w, crate::ip::double_colon()) is None) by {
        if let Some(k) = crate::text::find(w, crate::ip::double_colon()) {
            assert(w.subrange(k, k + 2)[0] == w[k]);
            assert(crate::ip::double_colon()[0] == ':');
            assert(w.contains(':'));
        }
    }
    assert(!crate::ip::is_ipv6(w));
    // a single DNS label
    reveal_strlit("www.");
    assert(!crate::text::starts_with(w, "www."@)) by {
        if crate::text::starts_with(w, "www."@) {
            assert(w.take(4)[0] == w[0]);
        }
    }
    assert(strip_www(w) == w);
    assert(trim_end_char(w, '.') == w);
}

/// The word inside a placeholder: `redacted-email` or `redacted-host`.
pub open spec fn placeholder_word(kind: TokenKind) -> Seq<char> {
    let r = token_replacement(kind);
    r.subrange(1, r.len() - 1)
}

/// The placeholders are `[`, a word of letters and hyphens, `]`.
proof fn lemma_placeholder_shape(kind: TokenKind)
    ensures
        token_replacement(kind) == seq!['['] + placeholder_word(kind) + seq![']'],
        token_replacement(kind).len() >= 7,
        all_token_chars(placeholder_word(kind)),
        !is_host_shaped(placeholder_word(kind)),
        !is_email_shaped(placeholder_word(kind)),
        !token_replacement(kind).contains(':'),
        !token_replacement(kind).contains('/'),
{
    reveal_strlit("[redacted-email]");
    reveal_strlit("[redacted-host]");
    let r = token_replacement(kind);
    let w = placeholder_word(kind);
    assert(r == seq!['['] + w + seq![']']);
    assert(all_token_chars(w));
    assert(!w.contains('@'));
    assert(!w.contains(':'));
    assert(!w.contains('.'));
    assert(!r.contains(':'));
    assert(!r.contains('/'));
    lemma_word_not_address(w);
}

/// A placeholder is left as it is by either token pass.
pub proof fn lemma_placeholder_stable(placed: TokenKind, kind: TokenKind)
    ensures
        tokens_redacted(token_replacement(placed), kind) == token_replacement(placed),
{
    lemma_placeholder_shape(placed);
    let w = placeholder_word(placed);
    let open = seq!['['];
    let rest = w + seq![']'];
    assert(token_replacement(placed) == open + rest);
    lemma_tokens_redacted_concat(open, rest, kind);
    lemma_tokens_redacted_single('[', kind);
    lemma_acc_run(seq![], w, seq![']'], kind);
    assert(Seq::<char>::empty() + w == w);
    let tail = seq![']'];
    assert(tail[0] == ']');
    assert(tail.drop_first().len() == 0);
    assert(tokens_redacted_acc(seq![], tail.drop_first(), kind) == Seq::<char>::empty());
    assert(w.len() > 0);
    assert(flushed(w, kind) == w) by {
        match kind {
            TokenKind::Email => {},
            TokenKind::Host => {},
        }
    }
    assert(tokens_redacted(rest, kind) == w + seq![']']);
    assert(open + (w + seq![']']) == token_replacement(placed));
}

/// The number of token characters `s` starts with.
pub open spec fn token_prefix_len(s: Seq<char>) -> nat
    decreases s.len(),
{
    if s.len() > 0 && is_token_character(s[0]) {
        1 + token_prefix_len(s.drop_first())
    } else {
        0
    }
}

proof fn lemma_token_prefix(s: Seq<char>)
    ensures
        token_prefix_len(s) <= s.len(),
        all_token_chars(s.take(token_prefix_len(s) as int)),
        token_prefix_len(s) < s.len() ==> !is_token_character(s[token_prefix_len(s) as int]),
    decreases s.len(),
{
    if s.len() > 0 && is_token_character(s[0]) {
        lemma_token_prefix(s.drop_first());
        let n = token_prefix_len(s);
        assert forall|i: int| 0 <= i < n implies is_token_character(#[trigger] s.take(n as int)[i]) by {
            if i > 0 {
                assert(s.take(n as int)[i] == s.drop_first().take(n - 1)[i - 1]);
            }
        }
    }
}

/// A piece that neither token pass changes: nothing, a run of token
/// characters that is neither an e-mail nor a host token, or a placeholder.
pub open spec fn stable_piece(g: Seq<char>) -> bool {
    ||| g.len() == 0
    ||| (all_token_chars(g) && !is_email_shaped(g) && !is_host_shaped(g))
    ||| g == token_replacement(TokenKind::Email)
    ||| g == token_replacement(TokenKind::Host)
}

proof fn lemma_stable_piece(g: Seq<char>, kind: TokenKind)
    requires
        stable_piece(g),
    ensures
        tokens_redacted(g, kind) == g,
{
    if g.len() == 0 {
        assert(all_token_chars(g));
        lemma_tokens_redacted_run(g, kind);
    } else if all_token_chars(g) && !is_email_shaped(g) && !is_host_shaped(g) {
        lemma_tokens_redacted_run(g, kind);
    } else if g == token_replacement(TokenKind::Email) {
        lemma_placeholder_stable(TokenKind::Email, kind);
    } else {
        lemma_placeholder_stable(TokenKind::Host, kind);
    }
}

/// A piece followed by a non-token character is redacted on its own.
proof fn lemma_piece_then_sep(x: Seq<char>, c: char, kind: TokenKind)
    requires
        all_token_chars(x) || (x.len() > 0 && !is_token_character(x.last())),
        !is_token_character(c),
    ensures
        tokens_redacted(x + seq![c], kind) == tokens_redacted(x, kind) + seq![c],
{
    let sc = seq![c];
    if all_token_chars(x) {
        lemma_acc_run(seq![], x, sc, kind);
        assert(Seq::<char>::empty() + x == x);
        assert(sc[0] == c);
        assert(sc.drop_first().len() == 0);
        assert(tokens_redacted_acc(seq![], sc.drop_first(), kind) == Seq::<char>::empty());
        assert(tokens_redacted_acc(x, sc, kind) == flushed(x, kind) + sc + Seq::<char>::empty());
        lemma_tokens_redacted_run(x, kind);
    } else {
        lemma_tokens_redacted_concat(x, sc, kind);
        lemma_tokens_redacted_single(c, kind);
    }
}

/// What the e-mail pass and then the host pass make of one run of token
/// characters is a stable piece.
proof fn lemma_run_through_passes(t: Seq<char>)
    requires
        all_token_chars(t),
    ensures
        stable_piece(tokens_redacted(flushed(t, TokenKind::Email), TokenKind::Host)),
        all_token_chars(flushed(t, TokenKind::Email)) || (flushed(t, TokenKind::Email).len() > 0
            && !is_token_character(flushed(t, TokenKind::Email).last())),
        all_token_chars(tokens_redacted(flushed(t, TokenKind::Email), TokenKind::Host)) || (
        tokens_redacted(flushed(t, TokenKind::Email), TokenKind::Host).len() > 0
            && !is_token_character(
            tokens_redacted(flushed(t, TokenKind::Email), TokenKind::Host).last(),
        )),
{
    let e = TokenKind::Email;
    let h = TokenKind::Host;
    lemma_placeholder_shape(e);
    lemma_placeholder_shape(h);
    let fe = flushed(t, e);
    if t.len() == 0 {
        assert(fe == t);
        lemma_tokens_redacted_run(t, h);
        assert(flushed(t, h) == t);
    } else if is_email_shaped(t) {
        assert(fe == token_replacement(e));
        lemma_placeholder_stable(e, h);
        assert(token_replacement(e).last() == ']');
    } else {
        assert(fe == t);
        lemma_tokens_redacted_run(t, h);
        if is_host_shaped(t) {
            assert(flushed(t, h) == token_replacement(h));
            assert(token_replacement(h).last() == ']');
        } else {
            assert(flushed(t, h) == t);
        }
    }
}

/// After an e-mail pass and then a host pass, neither pass changes the text
/// again.
proof fn lemma_passes_stable(u: Seq<char>)
    ensures
        tokens_redacted(
            tokens_redacted(tokens_redacted(u, TokenKind::Email), TokenKind::Host),
            TokenKind::Host,
        ) == tokens_redacted(tokens_redacted(u, TokenKind::Email), TokenKind::Host),
        tokens_redacted(
            tokens_redacted(tokens_redacted(u, TokenKind::Email), TokenKind::Host),
            TokenKind::Email,
        ) == tokens_redacted(tokens_redacted(u, TokenKind::Email), TokenKind::Host),
    decreases u.len(),
{
    let e = TokenKind::Email;
    let h = TokenKind::Host;
    lemma_token_prefix(u);
    let n = token_prefix_len(u);
    let t = u.take(n as int);
    let fe = flushed(t, e);
    lemma_run_through_passes(t);
    let g = tokens_redacted(fe, h);
    if n == u.len() {
        assert(t == u);
        lemma_tokens_redacted_run(u, e);
        lemma_stable_piece(g, h);
        lemma_stable_piece(g, e);
    } else {
        let c = u[n as int];
        let r = u.skip(n as int + 1);
        assert(u == t + seq![c] + r);
        let tc = t + seq![c];
        assert(tc.last() == c);
        lemma_tokens_redacted_concat(tc, r, e);
        lemma_piece_then_sep(t, c, e);
        lemma_tokens_redacted_run(t, e);
        let er = tokens_redacted(r, e);
        assert(tokens_redacted(u, e) == fe + seq![c] + er);
        lemma_passes_stable(r);
        let hr = tokens_redacted(er, h);
        let x1 = fe + seq![c];
        assert(x1.last() == c);
        lemma_tokens_redacted_concat(x1, er, h);
        lemma_piece_then_sep(fe, c, h);
        let out = g + seq![c] + hr;
        assert(tokens_redacted(tokens_redacted(u, e), h) == out);
        let gc = g + seq![c];
        assert(gc.last() == c);
        assert(out == gc + hr);
        lemma_piece_then_sep(g, c, h);
        lemma_piece_then_sep(g, c, e);
        lemma_stable_piece(g, h);
        lemma_stable_piece(g, e);
        lemma_tokens_redacted_concat(gc, hr, h);
        lemma_tokens_redacted_concat(gc, hr, e);
    }
}

/// Text that went through `redact_sensitive_text` holds no e-mail-shaped
/// and no host-shaped token: redacting e-mail addresses or host names again
/// changes nothing.
pub proof fn law_redacted_text_has_no_address_tokens(s: Seq<char>)
    ensures
        tokens_redacted(redacted_text(s), TokenKind::Email) == redacted_text(s),
        tokens_redacted(redacted_text(s), TokenKind::Host) == redacted_text(s),
{
    lemma_passes_stable(crate::redact::urls_redacted(crate::redact::markers_redacted(s)));
}

// ---------------------------------------------------------------------------
// No URL survives
// ---------------------------------------------------------------------------

/// `p` occurs nowhere in `s`.
pub open spec fn occurs_nowhere(s: Seq<char>, p: Seq<char>) -> bool {
    forall|j: int| !(#[trigger] occurs_at(s, p, j))
}

proof fn lemma_contains_iff(s: Seq<char>, p: Seq<char>)
    ensures
        !contains_seq(s, p) <==> occurs_nowhere(s, p),
{
    crate::text::lemma_find(s, p);
}

/// The characters of an occurrence.
proof fn lemma_occurs_char(s: Seq<char>, p: Seq<char>, j: int, i: int)
    requires
        occurs_at(s, p, j),
        0 <= i < p.len(),
    ensures
        s[j + i] == p[i],
{
    assert(s.subrange(j, j + p.len())[i] == s[j + i]);
}

/// An occurrence inside the first part of a concatenation.
proof fn lemma_occurs_left(a: Seq<char>, b: Seq<char>, p: Seq<char>, j: int)
    requires
        occurs_at(a + b, p, j),
        j + p.len() <= a.len(),
    ensures
        occurs_at(a, p, j),
{
    assert((a + b).subrange(j, j + p.len()) == a.subrange(j, j + p.len()));
}

/// An occurrence inside the second part of a concatenation.
proof fn lemma_occurs_right(a: Seq<char>, b: Seq<char>, p: Seq<char>, j: int)
    requires
        occurs_at(a + b, p, j),
        j >= a.len(),
    ensures
        occurs_at(b, p, j - a.len()),
{
    assert((a + b).subrange(j, j + p.len()) == b.subrange(j - a.len(), j - a.len() + p.len()));
}

/// An occurrence inside a part of `s`.
proof fn lemma_occurs_sub(s: Seq<char>, lo: int, hi: int, p: Seq<char>, j: int)
    requires
        0 <= lo <= hi <= s.len(),
        occurs_at(s.subrange(lo, hi), p, j),
    ensures
        occurs_at(s, p, lo + j),
{
    assert(s.subrange(lo, hi).subrange(j, j + p.len()) == s.subrange(lo + j, lo + j + p.len()));
}

pub open spec fn http() -> Seq<char> {
    "http://"@
}

pub open spec fn https() -> Seq<char> {
    "https://"@
}

proof fn lemma_url_prefixes()
    ensures
        http() == seq!['h', 't', 't', 'p', ':', '/', '/'],
        https() == seq!['h', 't', 't', 'p', 's', ':', '/', '/'],
        all_token_chars(http()),
        all_token_chars(https()),
{
    reveal_strlit("http://");
    reveal_strlit("https://");
}

/// No occurrence in `a + m + tr + rest` when there is none in `a` or
/// `rest`, `m` starts with a character the pattern lacks, and neither `m`
/// nor `tr` holds the pattern's first character.
proof fn lemma_no_occurrence_joined(
    a: Seq<char>,
    m: Seq<char>,
    tr: Seq<char>,
    rest: Seq<char>,
    p: Seq<char>,
)
    requires
        occurs_nowhere(a, p),
        occurs_nowhere(rest, p),
        p.len() > 0,
        m.len() > 0,
        !p.contains(m[0]),
        !m.contains(p[0]),
        !tr.contains(p[0]),
    ensures
        occurs_nowhere(a + m + tr + rest, p),
{
    let out = a + m + tr + rest;
    let amt = a + m + tr;
    assert(out == amt + rest);
    assert(out =~= a + (m + tr + rest));
    assert forall|j: int| !(#[trigger] occurs_at(out, p, j)) by {
        if occurs_at(out, p, j) {
            lemma_occurs_char(out, p, j, 0);
            if j < a.len() {
                if j + p.len() <= a.len() {
                    lemma_occurs_left(a, m + tr + rest, p, j);
                } else {
                    lemma_occurs_char(out, p, j, a.len() - j);
                    assert(out[a.len() as int] == m[0]);
                    assert(p.contains(m[0]));
                }
            } else if j < a.len() + m.len() {
                assert(out[j] == m[j - a.len()]);
                assert(m.contains(p[0]));
            } else if j < amt.len() {
                assert(out[j] == tr[j - a.len() - m.len()]);
                assert(tr.contains(p[0]));
            } else {
                lemma_occurs_right(amt, rest, p, j);
            }
        }
    }
}

/// Neither URL prefix occurs in what `urls_redacted` returns.
#[verifier::rlimit(30)]
proof fn lemma_urls_redacted_no_prefix(s: Seq<char>, p: Seq<char>)
    requires
        p == http() || p == https(),
    ensures
        occurs_nowhere(crate::redact::urls_redacted(s), p),
    decreases s.len(),
{
    lemma_url_prefixes();
    crate::text::lemma_find(s, http());
    crate::text::lemma_find(s, https());
    let out = crate::redact::urls_redacted(s);
    match crate::redact::url_start(s) {
        None => {
            assert(out == s);
        },
        Some(k) => {
            crate::redact::lemma_url_start_progress(s);
            let e = k + crate::redact::url_len(s.skip(k));
            let tl = crate::redact::trailing_len(s.subrange(k, e));
            let a = s.take(k);
            let m = "[redacted-url]"@;
            let tr = s.subrange(e - tl, e);
            let rest = crate::redact::urls_redacted(s.skip(e));
            lemma_urls_redacted_no_prefix(s.skip(e), p);
            assert(out == a + m + tr + rest);
            assert(!tr.contains('h')) by {
                if tr.contains('h') {
                    let i = choose|i: int| 0 <= i < tr.len() && tr[i] == 'h';
                    lemma_trailing_chars(s.subrange(k, e), e - k - tl + i);
                    assert(tr[i] == s.subrange(k, e)[e - k - tl + i]);
                }
            }
            assert(occurs_nowhere(a, p)) by {
                assert forall|j: int| !(#[trigger] occurs_at(a, p, j)) by {
                    if occurs_at(a, p, j) {
                        assert(a.subrange(j, j + p.len()) == s.subrange(j, j + p.len()));
                        assert(occurs_at(s, p, j));
                    }
                }
            }
            reveal_strlit("[redacted-url]");
            assert(m[0] == '[');
            assert(!p.contains('['));
            assert(!m.contains('h'));
            assert(p[0] == 'h');
            lemma_no_occurrence_joined(a, m, tr, rest, p);
        },
    }
}

proof fn lemma_trailing_chars(s: Seq<char>, i: int)
    requires
        s.len() - crate::redact::trailing_len(s) <= i < s.len(),
    ensures
        crate::redact::is_url_trailing(s[i]),
    decreases s.len(),
{
    crate::redact::lemma_trailing_len_bound(s);
    if s.len() > 0 && crate::redact::is_url_trailing(s.last()) {
        if i < s.len() - 1 {
            crate::redact::lemma_trailing_len_bound(s.drop_last());
            lemma_trailing_chars(s.drop_last(), i);
        }
    }
}

/// A token pass keeps text free of a pattern made of token characters that
/// holds a `:` (placeholders hold none).
proof fn lemma_tokens_redacted_keeps_absence(x: Seq<char>, p: Seq<char>, kind: TokenKind)
    requires
        occurs_nowhere(x, p),
        all_token_chars(p),
        p.contains(':'),
    ensures
        occurs_nowhere(tokens_redacted(x, kind), p),
    decreases x.len(),
{
    lemma_placeholder_shape(kind);
    lemma_token_prefix(x);
    let n = token_prefix_len(x);
    let t = x.take(n as int);
    let ft = flushed(t, kind);
    let pi = choose|i: int| 0 <= i < p.len() && p[i] == ':';
    // the flushed run holds no occurrence
    assert(occurs_nowhere(ft, p)) by {
        assert forall|j: int| !(#[trigger] occurs_at(ft, p, j)) by {
            if occurs_at(ft, p, j) {
                if ft == t {
                    lemma_occurs_sub(x, 0, n as int, p, j);
                    assert(x.subrange(0, n as int) == t);
                } else {
                    assert(ft == token_replacement(kind));
                    lemma_occurs_char(ft, p, j, pi);
                    assert(token_replacement(kind).contains(':'));
                }
            }
        }
    }
    if n == x.len() {
        assert(t == x);
        lemma_tokens_redacted_run(x, kind);
    } else {
        let c = x[n as int];
        let r = x.skip(n as int + 1);
        assert(x == t + seq![c] + r);
        let tc = t + seq![c];
        assert(tc.last() == c);
        lemma_tokens_redacted_concat(tc, r, kind);
        lemma_piece_then_sep(t, c, kind);
        lemma_tokens_redacted_run(t, kind);
        assert(occurs_nowhere(r, p)) by {
            assert forall|j: int| !(#[trigger] occurs_at(r, p, j)) by {
                if occurs_at(r, p, j) {
                    lemma_occurs_sub(x, n as int + 1, x.len() as int, p, j);
                    assert(x.subrange(n as int + 1, x.len() as int) == r);
                }
            }
        }
        lemma_tokens_redacted_keeps_absence(r, p, kind);
        let rr = tokens_redacted(r, kind);
        let out = ft + seq![c] + rr;
        assert(tokens_redacted(x, kind) == out);
        assert forall|j: int| !(#[trigger] occurs_at(out, p, j)) by {
            if occurs_at(out, p, j) {
                let fc = ft + seq![c];
                assert(out == fc + rr);
                if j + p.len() <= ft.len() {
                    assert(ft + (seq![c] + rr) =~= out);
                    lemma_occurs_left(ft, seq![c] + rr, p, j);
                } else if j <= ft.len() {
                    lemma_occurs_char(out, p, j, ft.len() - j);
                    assert(out[ft.len() as int] == c);
                    assert(is_token_character(p[ft.len() - j]));
                } else {
                    lemma_occurs_right(fc, rr, p, j);
                }
            }
        }
    }
}

/// Text that went through `redact_sensitive_text` holds no `http://` and no
/// `https://`.
pub proof fn law_redacted_text_has_no_urls(s: Seq<char>)
    ensures
        !contains_seq(redacted_text(s), "http://"@),
        !contains_seq(redacted_text(s), "https://"@),
{
    lemma_url_prefixes();
    let u = crate::redact::urls_redacted(crate::redact::markers_redacted(s));
    let e = TokenKind::Email;
    let h = TokenKind::Host;
    assert(http()[4] == ':');
    assert(https()[5] == ':');
    assert(http().contains(':'));
    assert(https().contains(':'));
    lemma_urls_redacted_no_prefix(crate::redact::markers_redacted(s), http());
    lemma_urls_redacted_no_prefix(crate::redact::markers_redacted(s), https());
    lemma_tokens_redacted_keeps_absence(u, http(), e);
    lemma_tokens_redacted_keeps_absence(u, https(), e);
    lemma_tokens_redacted_keeps_absence(tokens_redacted(u, e), http(), h);
    lemma_tokens_redacted_keeps_absence(tokens_redacted(u, e), https(), h);
    lemma_contains_iff(redacted_text(s), http());
    lemma_contains_iff(redacted_text(s), https());
}

// ---------------------------------------------------------------------------
// No secret marker survives
// ---------------------------------------------------------------------------

/// `p` does not occur in `s` when `s` lacks one of its characters.
proof fn lemma_no_occurrence_missing_char(s: Seq<char>, p: Seq<char>, d: char)
    requires
        p.contains(d),
        !s.contains(d),
    ensures
        occurs_nowhere(s, p),
{
    assert forall|j: int| !(#[trigger] occurs_at(s, p, j)) by {
        if occurs_at(s, p, j) {
            let i = choose|i: int| 0 <= i < p.len() && p[i] == d;
            lemma_occurs_char(s, p, j, i);
        }
    }
}

/// A part of a text in which `p` never occurs (ignoring ASCII case) has no
/// occurrence either.
proof fn lemma_lower_part_nowhere(x: Seq<char>, lo: int, hi: int, p: Seq<char>)
    requires
        0 <= lo <= hi <= x.len(),
        occurs_nowhere(ascii_lower(x), p),
    ensures
        occurs_nowhere(ascii_lower(x.subrange(lo, hi)), p),
{
    crate::text::lemma_ascii_lower_subrange(x, lo, hi);
    let lx = ascii_lower(x);
    assert forall|j: int| !(#[trigger] occurs_at(ascii_lower(x.subrange(lo, hi)), p, j)) by {
        if occurs_at(lx.subrange(lo, hi), p, j) {
            lemma_occurs_sub(lx, lo, hi, p, j);
        }
    }
}

/// No occurrence crosses a middle part made of characters the pattern lacks.
proof fn lemma_no_occurrence_barrier(a: Seq<char>, mid: Seq<char>, b: Seq<char>, p: Seq<char>)
    requires
        occurs_nowhere(a, p),
        occurs_nowhere(b, p),
        p.len() > 0,
        mid.len() > 0,
        forall|i: int| 0 <= i < mid.len() ==> !p.contains(#[trigger] mid[i]),
    ensures
        occurs_nowhere(a + mid + b, p),
{
    let x = a + mid + b;
    let am = a + mid;
    assert(x =~= a + (mid + b));
    assert forall|j: int| !(#[trigger] occurs_at(x, p, j)) by {
        if occurs_at(x, p, j) {
            if j + p.len() <= a.len() {
                lemma_occurs_left(a, mid + b, p, j);
            } else if j >= am.len() {
                lemma_occurs_right(am, b, p, j);
            } else {
                // the occurrence covers a character of `mid`
                let k = if j >= a.len() {
                    j
                } else {
                    a.len() as int
                };
                lemma_occurs_char(x, p, j, k - j);
                assert(x[k] == mid[k - a.len()]);
                assert(p.contains(mid[k - a.len()]));
            }
        }
    }
}

/// The characters a secret marker is made of.
pub open spec fn is_marker_char(c: char) -> bool {
    ('a' <= c && c <= 'z') || c == '_'
}

/// A pattern shaped like a secret marker: lower-case letters and `_`,
/// including one of `p`, `k` or `n`, none of which any placeholder holds.
pub open spec fn marker_shaped(p: Seq<char>, d: char) -> bool {
    &&& p.len() > 0
    &&& forall|i: int| 0 <= i < p.len() ==> is_marker_char(#[trigger] p[i])
    &&& p.contains(d)
    &&& (d == 'p' || d == 'k' || d == 'n')
}

proof fn lemma_marker_chars(p: Seq<char>, d: char, c: char)
    requires
        marker_shaped(p, d),
        p.contains(c),
    ensures
        is_token_character(c),
        is_marker_char(c),
{
}

/// The placeholders are lower case and hold none of `p`, `k`, `n`.
proof fn lemma_placeholders_lack(d: char)
    requires
        d == 'p' || d == 'k' || d == 'n',
    ensures
        ascii_lower("[redacted]"@) == "[redacted]"@,
        !"[redacted]"@.contains(d),
        ascii_lower("[redacted-url]"@) == "[redacted-url]"@,
        !"[redacted-url]"@.contains(d),
        ascii_lower(token_replacement(TokenKind::Email)) == token_replacement(TokenKind::Email),
        !token_replacement(TokenKind::Email).contains(d),
        ascii_lower(token_replacement(TokenKind::Host)) == token_replacement(TokenKind::Host),
        !token_replacement(TokenKind::Host).contains(d),
{
    reveal_strlit("[redacted]");
    reveal_strlit("[redacted-url]");
    reveal_strlit("[redacted-email]");
    reveal_strlit("[redacted-host]");
    assert(ascii_lower("[redacted]"@) =~= "[redacted]"@);
    assert(ascii_lower("[redacted-url]"@) =~= "[redacted-url]"@);
    assert(ascii_lower("[redacted-email]"@) =~= "[redacted-email]"@);
    assert(ascii_lower("[redacted-host]"@) =~= "[redacted-host]"@);
}

/// Lower-casing leaves characters that are not ASCII letters alone.
proof fn lemma_lower_keeps_non_letters(s: Seq<char>, d: char)
    requires
        forall|i: int| 0 <= i < s.len() ==> !crate::text::is_alpha(#[trigger] s[i]),
    ensures
        ascii_lower(s) == s,
{
    assert(ascii_lower(s) =~= s);
}

/// Each whitespace-separated word of a text without `p` (ignoring ASCII
/// case) is without `p` too.
proof fn lemma_words_nowhere(cur: Seq<char>, s: Seq<char>, p: Seq<char>)
    requires
        occurs_nowhere(ascii_lower(cur + s), p),
    ensures
        forall|i: int|
            0 <= i < crate::text::words_acc(cur, s).len() ==> occurs_nowhere(
                ascii_lower(#[trigger] crate::text::words_acc(cur, s)[i]),
                p,
            ),
    decreases s.len(),
{
    let x = cur + s;
    lemma_lower_part_nowhere(x, 0, cur.len() as int, p);
    assert(x.subrange(0, cur.len() as int) == cur);
    if s.len() == 0 {
        let r = crate::text::words_acc(cur, s);
        assert forall|i: int| 0 <= i < r.len() implies occurs_nowhere(
            ascii_lower(#[trigger] r[i]),
            p,
        ) by {
            assert(r[i] == cur);
        }
    } else if crate::text::is_ws(s[0]) {
        lemma_lower_part_nowhere(x, cur.len() + 1int, x.len() as int, p);
        assert(x.subrange(cur.len() + 1int, x.len() as int) == Seq::<char>::empty() + s.drop_first());
        lemma_words_nowhere(seq![], s.drop_first(), p);
        let head: Seq<Seq<char>> = if cur.len() == 0 {
            seq![]
        } else {
            seq![cur]
        };
        let tail = crate::text::words_acc(seq![], s.drop_first());
        assert(crate::text::words_acc(cur, s) == head + tail);
        assert forall|i: int|
            0 <= i < (head + tail).len() implies occurs_nowhere(
            ascii_lower(#[trigger] (head + tail)[i]),
            p,
        ) by {
            if i >= head.len() {
                assert((head + tail)[i] == tail[i - head.len()]);
            } else {
                assert((head + tail)[i] == cur);
            }
        }
    } else {
        assert(cur.push(s[0]) + s.drop_first() == x);
        lemma_words_nowhere(cur.push(s[0]), s.drop_first(), p);
        assert(crate::text::words_acc(cur, s) == crate::text::words_acc(cur.push(s[0]), s.drop_first()));
    }
}

/// Joining words without `p` by spaces does not create `p`.
proof fn lemma_join_nowhere(ws: Seq<Seq<char>>, p: Seq<char>)
    requires
        forall|i: int| 0 <= i < ws.len() ==> occurs_nowhere(ascii_lower(#[trigger] ws[i]), p),
        !p.contains(' '),
        p.len() > 0,
    ensures
        occurs_nowhere(ascii_lower(crate::text::join(ws, " "@)), p),
    decreases ws.len(),
{
    reveal_strlit(" ");
    if ws.len() == 0 {
        assert(ascii_lower(Seq::<char>::empty()) =~= Seq::<char>::empty());
    } else if ws.len() == 1 {
        assert(ws[0] == ws[0]);
    } else {
        let prefix = ws.drop_last();
        assert forall|i: int| 0 <= i < prefix.len() implies occurs_nowhere(
            ascii_lower(#[trigger] prefix[i]),
            p,
        ) by {
            assert(prefix[i] == ws[i]);
        }
        lemma_join_nowhere(prefix, p);
        let a = crate::text::join(prefix, " "@);
        let b = ws.last();
        assert(ws[ws.len() - 1] == b);
        crate::text::lemma_ascii_lower_append(a + " "@, b);
        crate::text::lemma_ascii_lower_append(a, " "@);
        assert(ascii_lower(" "@) =~= seq![' ']);
        let sp = seq![' '];
        assert(sp[0] == ' ');
        lemma_no_occurrence_barrier(ascii_lower(a), sp, ascii_lower(b), p);
    }
}

proof fn lemma_leading_non_token(s: Seq<char>, i: int)
    requires
        0 <= i < crate::redact::leading_len(s),
    ensures
        !is_token_character(s[i]),
    decreases s.len(),
{
    crate::redact::lemma_leading_len_bound(s);
    if i > 0 {
        lemma_leading_non_token(s.drop_first(), i - 1);
        assert(s.drop_first()[i - 1] == s[i]);
    }
}

proof fn lemma_after_last_token(s: Seq<char>, i: int)
    requires
        0 <= i < s.len(),
        match crate::redact::last_token_end(s) {
            Some(e) => i >= e,
            None => true,
        },
    ensures
        !is_token_character(s[i]),
    decreases s.len(),
{
    if s.len() > 0 && !is_token_character(s.last()) && i < s.len() - 1 {
        lemma_after_last_token(s.drop_last(), i);
    }
}

/// A redacted secret value keeps only punctuation around `[redacted]`.
proof fn lemma_secret_value_lacks(w: Seq<char>, d: char)
    requires
        d == 'p' || d == 'k' || d == 'n',
    ensures
        !ascii_lower(crate::redact::secret_value_redacted(w)).contains(d),
{
    lemma_placeholders_lack(d);
    crate::redact::lemma_leading_len_bound(w);
    crate::redact::lemma_last_token_end_bound(w);
    let lead = crate::redact::leading_len(w);
    let trail = match crate::redact::last_token_end(w) {
        Some(e) => e,
        None => lead,
    };
    assert(lead <= trail) by {
        if let Some(e) = crate::redact::last_token_end(w) {
            if e < lead {
                assert(e >= 1) by {
                    lemma_last_token_end_positive(w);
                }
                lemma_last_token_char(w);
                lemma_leading_non_token(w, e - 1);
            }
        }
    }
    let a = w.take(lead as int);
    let c = w.skip(trail as int);
    let v = a + "[redacted]"@ + c;
    assert forall|i: int| 0 <= i < a.len() implies !is_token_character(#[trigger] a[i]) by {
        lemma_leading_non_token(w, i);
    }
    assert forall|i: int| 0 <= i < c.len() implies !is_token_character(#[trigger] c[i]) by {
        lemma_after_last_token(w, trail + i);
    }
    lemma_lower_keeps_non_letters(a, d);
    lemma_lower_keeps_non_letters(c, d);
    crate::text::lemma_ascii_lower_append(a + "[redacted]"@, c);
    crate::text::lemma_ascii_lower_append(a, "[redacted]"@);
    let lv = ascii_lower(v);
    assert(lv == a + "[redacted]"@ + c);
    if lv.contains(d) {
        let k = choose|k: int| 0 <= k < lv.len() && lv[k] == d;
        if k < a.len() {
            assert(lv[k] == a[k]);
        } else if k < a.len() + 10 {
            assert(lv[k] == "[redacted]"@[k - a.len()]);
        } else {
            assert(lv[k] == c[k - a.len() - 10]);
        }
    }
}

proof fn lemma_last_token_end_positive(s: Seq<char>)
    ensures
        crate::redact::last_token_end(s) matches Some(e) ==> e >= 1,
    decreases s.len(),
{
    if s.len() > 0 && !is_token_character(s.last()) {
        lemma_last_token_end_positive(s.drop_last());
    }
}

proof fn lemma_last_token_char(s: Seq<char>)
    ensures
        crate::redact::last_token_end(s) matches Some(e) ==> (1 <= e <= s.len()
            && is_token_character(s[e - 1])),
    decreases s.len(),
{
    if s.len() > 0 && !is_token_character(s.last()) {
        lemma_last_token_char(s.drop_last());
    }
}

/// The words a marker pass produces are without `p` when `p` is the pass's
/// own marker or the words it was given are without `p`.
proof fn lemma_marker_pass_nowhere(
    ws: Seq<Seq<char>>,
    marker: Seq<char>,
    redact_next: bool,
    p: Seq<char>,
    d: char,
)
    requires
        marker_shaped(p, d),
        forall|i: int|
            0 <= i < ws.len() ==> p == marker || occurs_nowhere(ascii_lower(#[trigger] ws[i]), p),
    ensures
        forall|i: int|
            0 <= i < crate::redact::marker_pass(ws, marker, redact_next).len() ==> occurs_nowhere(
                ascii_lower(#[trigger] crate::redact::marker_pass(ws, marker, redact_next)[i]),
                p,
            ),
    decreases ws.len(),
{
    if ws.len() > 0 {
        let w = ws[0];
        let rest = ws.drop_first();
        assert forall|i: int| 0 <= i < rest.len() implies p == marker || occurs_nowhere(
            ascii_lower(#[trigger] rest[i]),
            p,
        ) by {
            assert(rest[i] == ws[i + 1]);
        }
        lemma_placeholders_lack(d);
        let out_w = if redact_next {
            if crate::redact::is_separator_word(w) {
                w
            } else {
                crate::redact::secret_value_redacted(w)
            }
        } else if contains_seq(ascii_lower(w), marker) {
            "[redacted]"@
        } else {
            w
        };
        let next = if redact_next {
            crate::redact::is_separator_word(w)
        } else if contains_seq(ascii_lower(w), marker) {
            crate::redact::needs_following_redaction(w, marker)
        } else {
            false
        };
        lemma_marker_pass_nowhere(rest, marker, next, p, d);
        assert(occurs_nowhere(ascii_lower(out_w), p)) by {
            if redact_next {
                if crate::redact::is_separator_word(w) {
                    assert forall|i: int| 0 <= i < w.len() implies !crate::text::is_alpha(
                        #[trigger] w[i],
                    ) by {
                        assert(crate::redact::is_separator_char(w[i]));
                    }
                    lemma_lower_keeps_non_letters(w, d);
                    assert(!w.contains(d)) by {
                        if w.contains(d) {
                            let k = choose|k: int| 0 <= k < w.len() && w[k] == d;
                            assert(crate::redact::is_separator_char(w[k]));
                        }
                    }
                    lemma_no_occurrence_missing_char(ascii_lower(w), p, d);
                } else {
                    lemma_secret_value_lacks(w, d);
                    lemma_no_occurrence_missing_char(ascii_lower(out_w), p, d);
                }
            } else if contains_seq(ascii_lower(w), marker) {
                lemma_no_occurrence_missing_char(ascii_lower(out_w), p, d);
            } else if p == marker {
                lemma_contains_iff(ascii_lower(w), marker);
            } else {
                assert(occurs_nowhere(ascii_lower(ws[0]), p));
            }
        }
        let r = crate::redact::marker_pass(rest, marker, next);
        assert(crate::redact::marker_pass(ws, marker, redact_next) == seq![out_w] + r);
        assert forall|i: int|
            0 <= i < (seq![out_w] + r).len() implies occurs_nowhere(
            ascii_lower(#[trigger] (seq![out_w] + r)[i]),
            p,
        ) by {
            if i > 0 {
                assert((seq![out_w] + r)[i] == r[i - 1]);
            }
        }
    }
}

/// After the pass for `marker`, `p` does not occur (ignoring ASCII case)
/// when it is that marker or did not occur before.
proof fn lemma_marker_redacted_nowhere(input: Seq<char>, marker: Seq<char>, p: Seq<char>, d: char)
    requires
        marker_shaped(p, d),
        p == marker || occurs_nowhere(ascii_lower(input), p),
    ensures
        occurs_nowhere(ascii_lower(crate::redact::marker_redacted(input, marker)), p),
{
    if !contains_seq(ascii_lower(input), marker) {
        if p == marker {
            lemma_contains_iff(ascii_lower(input), marker);
        }
    } else {
        let ws = crate::text::words(input);
        if p != marker {
            assert(Seq::<char>::empty() + input == input);
            lemma_words_nowhere(seq![], input, p);
        }
        lemma_marker_pass_nowhere(ws, marker, false, p, d);
        assert(!p.contains(' ')) by {
            if p.contains(' ') {
                let k = choose|k: int| 0 <= k < p.len() && p[k] == ' ';
                assert(is_marker_char(p[k]));
            }
        }
        lemma_join_nowhere(crate::redact::marker_pass(ws, marker, false), p);
    }
}

/// The URL pass does not create a marker.
proof fn lemma_urls_redacted_keeps_marker_absence(s: Seq<char>, p: Seq<char>, d: char)
    requires
        marker_shaped(p, d),
        occurs_nowhere(ascii_lower(s), p),
    ensures
        occurs_nowhere(ascii_lower(crate::redact::urls_redacted(s)), p),
    decreases s.len(),
{
    lemma_placeholders_lack(d);
    let out = crate::redact::urls_redacted(s);
    match crate::redact::url_start(s) {
        None => {},
        Some(k) => {
            crate::redact::lemma_url_start_progress(s);
            let e = k + crate::redact::url_len(s.skip(k));
            let tl = crate::redact::trailing_len(s.subrange(k, e));
            let a = s.take(k);
            let m = "[redacted-url]"@;
            let tr = s.subrange(e - tl, e);
            let rest = crate::redact::urls_redacted(s.skip(e));
            lemma_lower_part_nowhere(s, e, s.len() as int, p);
            assert(s.subrange(e, s.len() as int) == s.skip(e));
            lemma_urls_redacted_keeps_marker_absence(s.skip(e), p, d);
            lemma_lower_part_nowhere(s, 0, k, p);
            assert(s.subrange(0, k) == a);
            assert(out == a + m + tr + rest);
            crate::text::lemma_ascii_lower_append(a + m + tr, rest);
            crate::text::lemma_ascii_lower_append(a + m, tr);
            crate::text::lemma_ascii_lower_append(a, m);
            // the trailing punctuation is no part of a marker
            assert forall|i: int| 0 <= i < tr.len() implies !crate::text::is_alpha(#[trigger] tr[i])
                && !p.contains(tr[i]) by {
                lemma_trailing_chars(s.subrange(k, e), e - k - tl + i);
                assert(tr[i] == s.subrange(k, e)[e - k - tl + i]);
                if p.contains(tr[i]) {
                    lemma_marker_chars(p, d, tr[i]);
                }
            }
            lemma_lower_keeps_non_letters(tr, d);
            let lrest = ascii_lower(rest);
            let x = if tr.len() == 0 {
                lrest
            } else {
                lemma_no_occurrence_barrier(Seq::<char>::empty(), tr, lrest, p);
                assert(Seq::<char>::empty() + tr + lrest == tr + lrest);
                tr + lrest
            };
            assert(occurs_nowhere(x, p));
            assert(x == ascii_lower(tr) + lrest);
            reveal_strlit("[redacted-url]");
            let inner = m.subrange(1, m.len() - 1);
            assert(!inner.contains(d)) by {
                if inner.contains(d) {
                    let q = choose|q: int| 0 <= q < inner.len() && inner[q] == d;
                    assert(inner[q] == m[q + 1]);
                }
            }
            lemma_no_occurrence_missing_char(inner, p, d);
            let close = seq![']'];
            assert(!p.contains(']')) by {
                if p.contains(']') {
                    lemma_marker_chars(p, d, ']');
                }
            }
            assert(!p.contains('[')) by {
                if p.contains('[') {
                    lemma_marker_chars(p, d, '[');
                }
            }
            assert(close[0] == ']');
            lemma_no_occurrence_barrier(inner, close, x, p);
            let y = inner + close + x;
            let open = seq!['['];
            assert(open[0] == '[');
            lemma_no_occurrence_barrier(ascii_lower(a), open, y, p);
            assert(m =~= open + inner + close);
            assert(ascii_lower(out) =~= ascii_lower(a) + open + y);
        },
    }
}

/// A token pass does not create a marker.
proof fn lemma_tokens_redacted_keeps_marker_absence(
    x: Seq<char>,
    p: Seq<char>,
    d: char,
    kind: TokenKind,
)
    requires
        marker_shaped(p, d),
        occurs_nowhere(ascii_lower(x), p),
    ensures
        occurs_nowhere(ascii_lower(tokens_redacted(x, kind)), p),
    decreases x.len(),
{
    lemma_placeholders_lack(d);
    lemma_token_prefix(x);
    let n = token_prefix_len(x);
    let t = x.take(n as int);
    let ft = flushed(t, kind);
    assert(occurs_nowhere(ascii_lower(ft), p)) by {
        if t.len() == 0 {
            assert(ascii_lower(ft) =~= Seq::<char>::empty());
            lemma_no_occurrence_missing_char(ascii_lower(ft), p, d);
        } else if !token_matches(kind, t) {
            lemma_lower_part_nowhere(x, 0, n as int, p);
            assert(x.subrange(0, n as int) == t);
        } else {
            assert(ft == token_replacement(kind));
            lemma_no_occurrence_missing_char(ascii_lower(ft), p, d);
        }
    }
    if n == x.len() {
        assert(t == x);
        lemma_tokens_redacted_run(x, kind);
    } else {
        let c = x[n as int];
        let r = x.skip(n as int + 1);
        assert(x == t + seq![c] + r);
        let tc = t + seq![c];
        assert(tc.last() == c);
        lemma_tokens_redacted_concat(tc, r, kind);
        lemma_piece_then_sep(t, c, kind);
        lemma_tokens_redacted_run(t, kind);
        lemma_lower_part_nowhere(x, n as int + 1, x.len() as int, p);
        assert(x.subrange(n as int + 1, x.len() as int) == r);
        lemma_tokens_redacted_keeps_marker_absence(r, p, d, kind);
        let rr = tokens_redacted(r, kind);
        assert(tokens_redacted(x, kind) == ft + seq![c] + rr);
        crate::text::lemma_ascii_lower_append(ft + seq![c], rr);
        crate::text::lemma_ascii_lower_append(ft, seq![c]);
        let sc = seq![c];
        assert(!crate::text::is_alpha(c));
        assert(ascii_lower(sc) =~= sc);
        assert(!p.contains(c)) by {
            if p.contains(c) {
                lemma_marker_chars(p, d, c);
            }
        }
        assert(sc[0] == c);
        lemma_no_occurrence_barrier(ascii_lower(ft), sc, ascii_lower(rr), p);
    }
}

/// The nine markers that `redact_sensitive_text` looks for are shaped like
/// markers.
proof fn lemma_markers_shaped()
    ensures
        marker_shaped("password"@, 'p'),
        marker_shaped("passwd"@, 'p'),
        marker_shaped("usertoken"@, 'k'),
        marker_shaped("token"@, 'k'),
        marker_shaped("cookie"@, 'k'),
        marker_shaped("license"@, 'n'),
        marker_shaped("api_key"@, 'p'),
        marker_shaped("smtp_password"@, 'p'),
        marker_shaped("bounce_password"@, 'p'),
{
    reveal_strlit("password");
    reveal_strlit("passwd");
    reveal_strlit("usertoken");
    reveal_strlit("token");
    reveal_strlit("cookie");
    reveal_strlit("license");
    reveal_strlit("api_key");
    reveal_strlit("smtp_password");
    reveal_strlit("bounce_password");
    assert("password"@[0] == 'p');
    assert("passwd"@[0] == 'p');
    assert("usertoken"@[6] == 'k');
    assert("token"@[2] == 'k');
    assert("cookie"@[3] == 'k');
    assert("license"@[4] == 'n');
    assert("api_key"@[1] == 'p');
    assert("smtp_password"@[3] == 'p');
    assert("bounce_password"@[7] == 'p');
}

/// After the marker passes, a marker-shaped pattern that is one of the nine
/// markers occurs nowhere, ignoring ASCII case.
proof fn lemma_markers_redacted_nowhere(s: Seq<char>, p: Seq<char>, d: char)
    requires
        marker_shaped(p, d),
        p == "password"@ || p == "passwd"@ || p == "usertoken"@ || p == "token"@ || p
            == "cookie"@ || p == "license"@ || p == "api_key"@ || p == "smtp_password"@ || p
            == "bounce_password"@,
    ensures
        occurs_nowhere(ascii_lower(crate::redact::markers_redacted(s)), p),
{
    let s1 = crate::redact::marker_redacted(s, "password"@);
    let s2 = crate::redact::marker_redacted(s1, "passwd"@);
    let s3 = crate::redact::marker_redacted(s2, "usertoken"@);
    let s4 = crate::redact::marker_redacted(s3, "token"@);
    let s5 = crate::redact::marker_redacted(s4, "cookie"@);
    let s6 = crate::redact::marker_redacted(s5, "license"@);
    let s7 = crate::redact::marker_redacted(s6, "api_key"@);
    let s8 = crate::redact::marker_redacted(s7, "smtp_password"@);
    if p == "password"@ {
        lemma_marker_redacted_nowhere(s, "password"@, p, d);
    }
    if p == "passwd"@ || occurs_nowhere(ascii_lower(s1), p) {
        lemma_marker_redacted_nowhere(s1, "passwd"@, p, d);
    }
    if p == "usertoken"@ || occurs_nowhere(ascii_lower(s2), p) {
        lemma_marker_redacted_nowhere(s2, "usertoken"@, p, d);
    }
    if p == "token"@ || occurs_nowhere(ascii_lower(s3), p) {
        lemma_marker_redacted_nowhere(s3, "token"@, p, d);
    }
    if p == "cookie"@ || occurs_nowhere(ascii_lower(s4), p) {
        lemma_marker_redacted_nowhere(s4, "cookie"@, p, d);
    }
    if p == "license"@ || occurs_nowhere(ascii_lower(s5), p) {
        lemma_marker_redacted_nowhere(s5, "license"@, p, d);
    }
    if p == "api_key"@ || occurs_nowhere(ascii_lower(s6), p) {
        lemma_marker_redacted_nowhere(s6, "api_key"@, p, d);
    }
    if p == "smtp_password"@ || occurs_nowhere(ascii_lower(s7), p) {
        lemma_marker_redacted_nowhere(s7, "smtp_password"@, p, d);
    }
    if p == "bounce_password"@ || occurs_nowhere(ascii_lower(s8), p) {
        lemma_marker_redacted_nowhere(s8, "bounce_password"@, p, d);
    }
}

/// A marker-shaped pattern that is one of the nine markers occurs nowhere in
/// redacted text, ignoring ASCII case.
proof fn lemma_marker_absent(s: Seq<char>, p: Seq<char>, d: char)
    requires
        marker_shaped(p, d),
        p == "password"@ || p == "passwd"@ || p == "usertoken"@ || p == "token"@ || p
            == "cookie"@ || p == "license"@ || p == "api_key"@ || p == "smtp_password"@ || p
            == "bounce_password"@,
    ensures
        !contains_seq(ascii_lower(redacted_text(s)), p),
{
    let m = crate::redact::markers_redacted(s);
    let u = crate::redact::urls_redacted(m);
    let e = tokens_redacted(u, TokenKind::Email);
    lemma_markers_redacted_nowhere(s, p, d);
    lemma_urls_redacted_keeps_marker_absence(m, p, d);
    lemma_tokens_redacted_keeps_marker_absence(u, p, d, TokenKind::Email);
    lemma_tokens_redacted_keeps_marker_absence(e, p, d, TokenKind::Host);
    lemma_contains_iff(ascii_lower(redacted_text(s)), p);
}

/// No secret marker survives redaction: in free text that went through
/// `redact_sensitive_text`, none of `password`, `passwd`, `usertoken`,
/// `token`, `cookie`, `license`, `api_key`, `smtp_password` or
/// `bounce_password` occurs, in any mix of ASCII case.
pub proof fn law_no_secret_marker_survives(s: Seq<char>)
    ensures
        !contains_seq(ascii_lower(redacted_text(s)), "password"@),
        !contains_seq(ascii_lower(redacted_text(s)), "passwd"@),
        !contains_seq(ascii_lower(redacted_text(s)), "usertoken"@),
        !contains_seq(ascii_lower(redacted_text(s)), "token"@),
        !contains_seq(ascii_lower(redacted_text(s)), "cookie"@),
        !contains_seq(ascii_lower(redacted_text(s)), "license"@),
        !contains_seq(ascii_lower(redacted_text(s)), "api_key"@),
        !contains_seq(ascii_lower(redacted_text(s)), "smtp_password"@),
        !contains_seq(ascii_lower(redacted_text(s)), "bounce_password"@),
{
    lemma_markers_shaped();
    lemma_marker_absent(s, "password"@, 'p');
    lemma_marker_absent(s, "passwd"@, 'p');
    lemma_marker_absent(s, "usertoken"@, 'k');
    lemma_marker_absent(s, "token"@, 'k');
    lemma_marker_absent(s, "cookie"@, 'k');
    lemma_marker_absent(s, "license"@, 'n');
    lemma_marker_absent(s, "api_key"@, 'p');
    lemma_marker_absent(s, "smtp_password"@, 'p');
    lemma_marker_absent(s, "bounce_password"@, 'p');
}

/// Redaction is idempotent: redacting text that was already redacted
/// changes nothing.
pub proof fn law_redaction_is_idempotent(s: Seq<char>)
    ensures
        redacted_text(redacted_text(s)) == redacted_text(s),
{
    let r = redacted_text(s);
    law_no_secret_marker_survives(s);
    law_redacted_text_has_no_urls(s);
    law_redacted_text_has_no_address_tokens(s);
    assert(crate::redact::markers_redacted(r) == r);
    assert(crate::redact::url_start(r) is None);
    assert(crate::redact::urls_redacted(r) == r);
}

/// The characters that end a URL: whitespace, quotes, `<` and `>`.
pub open spec fn ends_url(c: char) -> bool {
    crate::text::is_ws(c) || c == '"' || c == '\'' || c == '<' || c == '>'
}

/// A URL runs up to its first whitespace, quote, `<` or `>`: every
/// character before that one (a `?`, `&` or `=` of a query string included)
/// is part of it.
pub proof fn law_url_runs_to_first_stop(s: Seq<char>)
    ensures
        crate::redact::url_len(s) <= s.len(),
        forall|i: int| 0 <= i < crate::redact::url_len(s) ==> !ends_url(#[trigger] s[i]),
        crate::redact::url_len(s) < s.len() ==> ends_url(s[crate::redact::url_len(s) as int]),
    decreases s.len(),
{
    if s.len() > 0 && !ends_url(s[0]) {
        law_url_runs_to_first_stop(s.drop_first());
        assert forall|i: int| 0 <= i < crate::redact::url_len(s) implies !ends_url(#[trigger] s[i]) by {
            if i > 0 {
                assert(s[i] == s.drop_first()[i - 1]);
            }
        }
        if crate::redact::url_len(s) < s.len() {
            assert(s[crate::redact::url_len(s) as int] == s.drop_first()[crate::redact::url_len(
                s.drop_first(),
            ) as int]);
        }
    }
}

/// Where a URL starts at `k` and the first whitespace, quote, `<` or `>`
/// after it is at `j` (or the text ends there), the URL is replaced whole:
/// what precedes it is kept, then `[redacted-url]`, then only the trailing
/// `,` `.` `;` `:` `)` `]` `}` of the run, then the rest of the text,
/// redacted in turn.
pub proof fn law_url_is_replaced_up_to_first_stop(s: Seq<char>, k: int, j: int)
    requires
        crate::redact::url_start(s) == Some(k),
        k <= j <= s.len(),
        forall|i: int| k <= i < j ==> !ends_url(#[trigger] s[i]),
        j == s.len() || ends_url(s[j]),
    ensures
        crate::redact::urls_redacted(s) == s.take(k) + "[redacted-url]"@ + s.subrange(
            j - crate::redact::trailing_len(s.subrange(k, j)),
            j,
        ) + crate::redact::urls_redacted(s.skip(j)),
{
    crate::redact::lemma_url_start_progress(s);
    let u = s.skip(k);
    law_url_runs_to_first_stop(u);
    let n = crate::redact::url_len(u);
    // the first stop after `k` is at `j`, so the URL is `k..j`
    if k + n < j {
        assert(u[n as int] == s[k + n]);
        assert(!ends_url(s[k + n]));
    }
    if k + n > j {
        assert(u[j - k] == s[j]);
    }
    assert(k + n == j);
}

/// A URL starts at the first `http://` or `https://` of the text, and
/// there is none when neither occurs.
pub proof fn law_url_starts_at_first_scheme(s: Seq<char>)
    ensures
        crate::redact::url_start(s) matches Some(k) ==> (occurs_at(s, "http://"@, k) || occurs_at(
            s,
            "https://"@,
            k,
        )) && forall|j: int|
            0 <= j < k ==> !occurs_at(s, "http://"@, j) && !occurs_at(s, "https://"@, j),
        crate::redact::url_start(s) is None ==> forall|j: int|
            !occurs_at(s, "http://"@, j) && !occurs_at(s, "https://"@, j),
{
    crate::text::lemma_find(s, "http://"@);
    crate::text::lemma_find(s, "https://"@);
}

/// Only the `,` `.` `;` `:` `)` `]` `}` that end a URL are kept after
/// `[redacted-url]`: the kept tail is the longest run of them at its end.
pub proof fn law_trailing_punctuation_is_the_final_run(s: Seq<char>)
    ensures
        crate::redact::trailing_len(s) <= s.len(),
        forall|i: int|
            s.len() - crate::redact::trailing_len(s) <= i < s.len() ==> {
                let c = #[trigger] s[i];
                c == ',' || c == '.' || c == ';' || c == ':' || c == ')' || c == ']' || c == '}'
            },
        crate::redact::trailing_len(s) < s.len() ==> {
            let c = s[s.len() - 1 - crate::redact::trailing_len(s)];
            !(c == ',' || c == '.' || c == ';' || c == ':' || c == ')' || c == ']' || c == '}')
        },
    decreases s.len(),
{
    if s.len() > 0 && crate::redact::is_url_trailing(s.last()) {
        law_trailing_punctuation_is_the_final_run(s.drop_last());
        assert forall|i: int|
            s.len() - crate::redact::trailing_len(s) <= i < s.len() implies {
                let c = #[trigger] s[i];
                c == ',' || c == '.' || c == ';' || c == ':' || c == ')' || c == ']' || c == '}'
            } by {
            if i < s.len() - 1 {
                assert(s[i] == s.drop_last()[i]);
            }
        }
        if crate::redact::trailing_len(s) < s.len() {
            assert(s[s.len() - 1 - crate::redact::trailing_len(s)] == s.drop_last()[s.drop_last().len()
                - 1 - crate::redact::trailing_len(s.drop_last())]);
        }
    }
}

// ---------------------------------------------------------------------------
// The value after a marker
// ---------------------------------------------------------------------------

pub open spec fn no_ws(a: Seq<char>) -> bool {
    forall|i: int| 0 <= i < a.len() ==> !crate::text::is_ws(#[trigger] a[i])
}

proof fn lemma_words_no_ws(cur: Seq<char>, a: Seq<char>)
    requires
        no_ws(a),
    ensures
        crate::text::words_acc(cur, a) == if (cur + a).len() == 0 {
            Seq::<Seq<char>>::empty()
        } else {
            seq![cur + a]
        },
    decreases a.len(),
{
    if a.len() == 0 {
        assert(cur + a =~= cur);
    } else {
        assert(!crate::text::is_ws(a[0]));
        assert(no_ws(a.drop_first())) by {
            assert forall|i: int| 0 <= i < a.drop_first().len() implies !crate::text::is_ws(
                #[trigger] a.drop_first()[i],
            ) by {
                assert(a.drop_first()[i] == a[i + 1]);
            }
        }
        lemma_words_no_ws(cur.push(a[0]), a.drop_first());
        assert(cur.push(a[0]) + a.drop_first() =~= cur + a);
    }
}

proof fn lemma_words_space(cur: Seq<char>, a: Seq<char>, b: Seq<char>)
    requires
        no_ws(a),
        (cur + a).len() > 0,
    ensures
        crate::text::words_acc(cur, a + seq![' '] + b) == seq![cur + a] + crate::text::words_acc(
            seq![],
            b,
        ),
    decreases a.len(),
{
    let s = a + seq![' '] + b;
    if a.len() == 0 {
        assert(s[0] == ' ');
        assert(s.drop_first() =~= b);
        assert(cur + a =~= cur);
    } else {
        assert(s[0] == a[0]);
        assert(!crate::text::is_ws(a[0]));
        assert(s.drop_first() =~= a.drop_first() + seq![' '] + b);
        assert(no_ws(a.drop_first())) by {
            assert forall|i: int| 0 <= i < a.drop_first().len() implies !crate::text::is_ws(
                #[trigger] a.drop_first()[i],
            ) by {
                assert(a.drop_first()[i] == a[i + 1]);
            }
        }
        lemma_words_space(cur.push(a[0]), a.drop_first(), b);
        assert(cur.push(a[0]) + a.drop_first() =~= cur + a);
    }
}

/// A word made of ASCII letters and digits is redacted whole as a value.
proof fn lemma_value_word_redacted(w: Seq<char>)
    requires
        w.len() > 0,
        forall|i: int| 0 <= i < w.len() ==> crate::oci_ledger::ascii_alnum(#[trigger] w[i]),
    ensures
        crate::redact::secret_value_redacted(w) == "[redacted]"@,
{
    assert(is_token_character(w[0]));
    assert(is_token_character(w.last()));
    assert(w.take(0) =~= Seq::<char>::empty());
    assert(w.skip(w.len() as int) =~= Seq::<char>::empty());
}

/// A marker word, followed by a separator word made of `:` `=` `-` `>` and
/// quotes, then a value word of letters and digits: both the marker word and
/// the value are redacted and the separator is kept, for every marker made
/// of lower-case letters and `_` and every such separator and value. The
/// marker word may end in punctuation that is not part of a value (such as
/// `:` in `password:`).
pub proof fn law_marker_separator_value_is_redacted(
    marker: Seq<char>,
    post: Seq<char>,
    sep: Seq<char>,
    value: Seq<char>,
)
    requires
        marker.len() > 0,
        forall|i: int| 0 <= i < marker.len() ==> ('a' <= #[trigger] marker[i] && marker[i] <= 'z') || marker[i] == '_',
        forall|i: int|
            0 <= i < post.len() ==> !crate::oci_ledger::ascii_alnum(#[trigger] post[i]) && post[i] != '@'
                && post[i] != '/' && post[i] != '.' && !crate::text::is_ws(post[i]),
        sep.len() > 0,
        forall|i: int|
            0 <= i < sep.len() ==> #[trigger] sep[i] == ':' || sep[i] == '=' || sep[i] == '-' || sep[i] == '>'
                || sep[i] == '"' || sep[i] == '\'',
        value.len() > 0,
        forall|i: int| 0 <= i < value.len() ==> crate::oci_ledger::ascii_alnum(#[trigger] value[i]),
    ensures
        crate::redact::marker_redacted(
            marker + post + " "@ + sep + " "@ + value,
            marker,
        ) == "[redacted]"@ + " "@ + sep + " "@ + "[redacted]"@,
{
    reveal_strlit(" ");
    reveal_strlit("[redacted]");
    let mw = marker + post;
    let input = mw + seq![' '] + sep + seq![' '] + value;
    assert(marker + post + " "@ + sep + " "@ + value == input);
    // the words
    assert(no_ws(mw)) by {
        assert forall|i: int| 0 <= i < mw.len() implies !crate::text::is_ws(#[trigger] mw[i]) by {
            if i >= marker.len() {
                assert(mw[i] == post[i - marker.len()]);
            }
        }
    }
    assert(no_ws(sep)) by {
        assert forall|i: int| 0 <= i < sep.len() implies !crate::text::is_ws(#[trigger] sep[i]) by {}
    }
    assert(no_ws(value)) by {
        assert forall|i: int| 0 <= i < value.len() implies !crate::text::is_ws(#[trigger] value[i]) by {
            assert(crate::oci_ledger::ascii_alnum(value[i]));
        }
    }
    let e = Seq::<char>::empty();
    assert(input =~= mw + seq![' '] + (sep + seq![' '] + value));
    lemma_words_space(e, mw, sep + seq![' '] + value);
    lemma_words_space(e, sep, value);
    lemma_words_no_ws(e, value);
    assert(e + mw =~= mw);
    assert(e + sep =~= sep);
    assert(e + value =~= value);
    let ws = crate::text::words(input);
    assert(ws =~= seq![mw, sep, value]);
    // the marker word holds the marker first, with nothing value-like after it
    assert(ascii_lower(marker) =~= marker);
    crate::text::lemma_ascii_lower_append(marker, post);
    assert(occurs_at(ascii_lower(mw), marker, 0)) by {
        assert(ascii_lower(mw).subrange(0, marker.len() as int) =~= marker);
    }
    crate::text::lemma_find(ascii_lower(mw), marker);
    assert(crate::text::find(ascii_lower(mw), marker) == Some(0int));
    assert(contains_seq(ascii_lower(mw), marker));
    assert(mw.skip(marker.len() as int) =~= post);
    assert(crate::redact::needs_following_redaction(mw, marker));
    // so does the whole text
    crate::text::lemma_ascii_lower_append(mw, seq![' '] + sep + seq![' '] + value);
    assert(input =~= mw + (seq![' '] + sep + seq![' '] + value));
    assert(occurs_at(ascii_lower(input), marker, 0)) by {
        assert(ascii_lower(input).subrange(0, marker.len() as int) =~= marker);
    }
    crate::text::lemma_find(ascii_lower(input), marker);
    // the separator is kept and the value redacted
    assert(crate::redact::is_separator_word(sep));
    lemma_value_word_redacted(value);
    assert(!crate::redact::is_separator_word(value)) by {
        assert(crate::oci_ledger::ascii_alnum(value[0]));
    }
    let out = crate::redact::marker_pass(ws, marker, false);
    assert(ws.drop_first() =~= seq![sep, value]);
    assert(ws.drop_first().drop_first() =~= seq![value]);
    assert(seq![value].drop_first() =~= Seq::<Seq<char>>::empty());
    let ws1 = ws.drop_first();
    let ws2 = ws1.drop_first();
    let ws3 = ws2.drop_first();
    assert(ws[0] == mw);
    assert(ws1[0] == sep);
    assert(ws2[0] == value);
    assert(ws3.len() == 0);
    let m3 = crate::redact::marker_pass(ws3, marker, false);
    assert(m3 == Seq::<Seq<char>>::empty());
    let m2 = crate::redact::marker_pass(ws2, marker, true);
    assert(m2 == seq![crate::redact::secret_value_redacted(value)] + m3);
    let m1 = crate::redact::marker_pass(ws1, marker, true);
    assert(m1 == seq![sep] + m2);
    assert(out == seq!["[redacted]"@] + m1);
    assert(out =~= seq!["[redacted]"@, sep, "[redacted]"@]);
    reveal_with_fuel(crate::text::join, 3);
    assert(seq!["[redacted]"@, sep, "[redacted]"@].drop_last() =~= seq!["[redacted]"@, sep]);
    assert(seq!["[redacted]"@, sep].drop_last() =~= seq!["[redacted]"@]);
}

/// A marker word that carries its value (`password=hunter2`) is redacted
/// whole, and the word after it is left alone (here any word of digits):
/// only a bare marker makes the next word a value.
pub proof fn law_marker_with_attached_value_keeps_next_word(
    marker: Seq<char>,
    attached: Seq<char>,
    next: Seq<char>,
)
    requires
        marker.len() > 0,
        forall|i: int| 0 <= i < marker.len() ==> ('a' <= #[trigger] marker[i] && marker[i] <= 'z') || marker[i] == '_',
        attached.len() > 0,
        forall|i: int| 0 <= i < attached.len() ==> crate::oci_ledger::ascii_alnum(#[trigger] attached[i]),
        next.len() > 0,
        forall|i: int| 0 <= i < next.len() ==> '0' <= #[trigger] next[i] && next[i] <= '9',
    ensures
        crate::redact::marker_redacted(marker + "="@ + attached + " "@ + next, marker)
            == "[redacted]"@ + " "@ + next,
{
    reveal_strlit(" ");
    reveal_strlit("=");
    reveal_strlit("[redacted]");
    let mw = marker + seq!['='] + attached;
    let input = mw + seq![' '] + next;
    assert(marker + "="@ + attached + " "@ + next == input);
    assert(no_ws(mw)) by {
        assert forall|i: int| 0 <= i < mw.len() implies !crate::text::is_ws(#[trigger] mw[i]) by {
            if i > marker.len() {
                assert(mw[i] == attached[i - marker.len() - 1]);
                assert(crate::oci_ledger::ascii_alnum(attached[i - marker.len() - 1]));
            }
        }
    }
    assert(no_ws(next)) by {
        assert forall|i: int| 0 <= i < next.len() implies !crate::text::is_ws(#[trigger] next[i]) by {}
    }
    let e = Seq::<char>::empty();
    lemma_words_space(e, mw, next);
    lemma_words_no_ws(e, next);
    assert(e + mw =~= mw);
    assert(e + next =~= next);
    let ws = crate::text::words(input);
    assert(ws =~= seq![mw, next]);
    // the marker word holds the marker first, with a value after it
    assert(ascii_lower(marker) =~= marker);
    crate::text::lemma_ascii_lower_append(marker, seq!['='] + attached);
    assert(mw =~= marker + (seq!['='] + attached));
    assert(occurs_at(ascii_lower(mw), marker, 0)) by {
        assert(ascii_lower(mw).subrange(0, marker.len() as int) =~= marker);
    }
    crate::text::lemma_find(ascii_lower(mw), marker);
    assert(crate::text::find(ascii_lower(mw), marker) == Some(0int));
    let after = mw.skip(marker.len() as int);
    assert(after[1] == attached[0]);
    assert(crate::redact::is_value_char(after[1]));
    assert(!crate::redact::needs_following_redaction(mw, marker));
    crate::text::lemma_ascii_lower_append(mw, seq![' '] + next);
    assert(input =~= mw + (seq![' '] + next));
    assert(occurs_at(ascii_lower(input), marker, 0)) by {
        assert(ascii_lower(input).subrange(0, marker.len() as int) =~= marker);
    }
    crate::text::lemma_find(ascii_lower(input), marker);
    // the next word does not hold the marker: it has no letters or `_`
    assert(ascii_lower(next) =~= next);
    assert(!contains_seq(next, marker)) by {
        crate::text::lemma_find(next, marker);
        if let Some(k) = crate::text::find(next, marker) {
            assert(next.subrange(k, k + marker.len())[0] == next[k]);
            assert(marker[0] == next[k]);
        }
    }
    let ws1 = ws.drop_first();
    let ws2 = ws1.drop_first();
    assert(ws[0] == mw);
    assert(ws1[0] == next);
    assert(ws2.len() == 0);
    let m2 = crate::redact::marker_pass(ws2, marker, false);
    assert(m2 == Seq::<Seq<char>>::empty());
    let m1 = crate::redact::marker_pass(ws1, marker, false);
    assert(m1 == seq![next] + m2);
    let out = crate::redact::marker_pass(ws, marker, false);
    assert(out == seq!["[redacted]"@] + m1);
    assert(out =~= seq!["[redacted]"@, next]);
    reveal_with_fuel(crate::text::join, 2);
    assert(out.drop_last() =~= seq!["[redacted]"@]);
}

} // verus!
