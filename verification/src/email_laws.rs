//! Laws of e-mail and host-token redaction: every dotted name of DNS labels
//! with a top-level label of letters, and every dotted quad, is a host
//! token; an address keeps only the first character of its local part and
//! its lower-cased domain; and redacting an already redacted e-mail field
//! gives it back unchanged. The last rests on ASCII lower-casing commuting
//! with everything `is_host_shaped` looks at: splitting at `.` and `:`, the
//! port, trailing dots and IP-address literals.

use vstd::prelude::*;
use crate::ip::{
    all_hex_groups, group_count, head_count, is_hex_group, is_ip_addr, is_ipv4, is_ipv6,
    is_octet, tail_count, double_colon,
};
use crate::redact::{is_host_shaped, is_label, redacted_email, strip_www, without_port};
use crate::text::{
    all_alpha, all_digits, ascii_lower, decimal, find, find_from, is_alnum, is_alpha, is_digit,
    is_hexdigit, is_ws, last_index_of, lower_char, occurs_at, split, split_acc, starts_with, trim, trim_end, trim_end_char, trim_start,
};

verus! {

/// Every piece lower-cased.
pub open spec fn lower_all(xs: Seq<Seq<char>>) -> Seq<Seq<char>> {
    xs.map_values(|x: Seq<char>| ascii_lower(x))
}

pub proof fn lemma_lower_char(c: char)
    ensures
        is_alpha(lower_char(c)) == is_alpha(c),
        is_digit(lower_char(c)) == is_digit(c),
        is_alnum(lower_char(c)) == is_alnum(c),
        is_hexdigit(lower_char(c)) == is_hexdigit(c),
        is_ws(lower_char(c)) == is_ws(c),
        !is_alpha(c) ==> lower_char(c) == c,
{
}

/// Lower-casing meets a character that is not a letter only at itself.
pub proof fn lemma_lower_char_is(c: char, n: char)
    requires
        !is_alpha(n),
    ensures
        (lower_char(c) == n) == (c == n),
{
}

/// A text without letters is its own lower case.
proof fn lemma_lower_no_letters(s: Seq<char>)
    requires
        forall|i: int| 0 <= i < s.len() ==> !is_alpha(#[trigger] s[i]),
    ensures
        ascii_lower(s) == s,
{
    assert(ascii_lower(s) =~= s);
}

/// Lower-cased texts are equal to a text without letters only when the
/// originals are.
proof fn lemma_lower_eq_no_letters(x: Seq<char>, p: Seq<char>)
    requires
        forall|i: int| 0 <= i < p.len() ==> !is_alpha(#[trigger] p[i]),
    ensures
        (ascii_lower(x) == p) == (x == p),
{
    lemma_lower_no_letters(p);
    if ascii_lower(x) == p {
        assert forall|i: int| 0 <= i < x.len() implies x[i] == p[i] by {
            assert(ascii_lower(x)[i] == lower_char(x[i]));
            lemma_lower_char_is(x[i], p[i]);
        }
        assert(x =~= p);
    }
}

proof fn lemma_lower_take_skip(s: Seq<char>, i: int)
    requires
        0 <= i <= s.len(),
    ensures
        ascii_lower(s.take(i)) == ascii_lower(s).take(i),
        ascii_lower(s.skip(i)) == ascii_lower(s).skip(i),
{
    assert(ascii_lower(s.take(i)) =~= ascii_lower(s).take(i));
    assert(ascii_lower(s.skip(i)) =~= ascii_lower(s).skip(i));
}

proof fn lemma_lower_all_digits(s: Seq<char>)
    ensures
        all_digits(ascii_lower(s)) == all_digits(s),
        all_alpha(ascii_lower(s)) == all_alpha(s),
        crate::text::all_hexdigits(ascii_lower(s)) == crate::text::all_hexdigits(s),
        all_digits(s) ==> ascii_lower(s) == s,
{
    let l = ascii_lower(s);
    if all_digits(s) {
        assert forall|i: int| 0 <= i < l.len() implies is_digit(#[trigger] l[i]) by {
            lemma_lower_char(s[i]);
        }
    }
    if all_digits(l) {
        assert forall|i: int| 0 <= i < s.len() implies is_digit(#[trigger] s[i]) by {
            lemma_lower_char(s[i]);
            assert(is_digit(l[i]));
        }
    }
    if all_alpha(s) {
        assert forall|i: int| 0 <= i < l.len() implies is_alpha(#[trigger] l[i]) by {
            lemma_lower_char(s[i]);
        }
    }
    if all_alpha(l) {
        assert forall|i: int| 0 <= i < s.len() implies is_alpha(#[trigger] s[i]) by {
            lemma_lower_char(s[i]);
            assert(is_alpha(l[i]));
        }
    }
    if crate::text::all_hexdigits(s) {
        assert forall|i: int| 0 <= i < l.len() implies is_hexdigit(#[trigger] l[i]) by {
            lemma_lower_char(s[i]);
        }
    }
    if crate::text::all_hexdigits(l) {
        assert forall|i: int| 0 <= i < s.len() implies is_hexdigit(#[trigger] s[i]) by {
            lemma_lower_char(s[i]);
            assert(is_hexdigit(l[i]));
        }
    }
    if all_digits(s) {
        assert forall|i: int| 0 <= i < s.len() implies !is_alpha(#[trigger] s[i]) by {}
        lemma_lower_no_letters(s);
    }
}

proof fn lemma_lower_split_acc(cur: Seq<char>, s: Seq<char>, c: char)
    requires
        !is_alpha(c),
    ensures
        split_acc(ascii_lower(cur), ascii_lower(s), c) == lower_all(split_acc(cur, s, c)),
    decreases s.len(),
{
    let ls = ascii_lower(s);
    if s.len() == 0 {
        assert(lower_all(seq![cur]) =~= seq![ascii_lower(cur)]);
    } else {
        lemma_lower_char_is(s[0], c);
        assert(ls[0] == lower_char(s[0]));
        assert(ls.drop_first() =~= ascii_lower(s.drop_first()));
        if s[0] == c {
            assert(ascii_lower(Seq::<char>::empty()) =~= Seq::<char>::empty());
            lemma_lower_split_acc(seq![], s.drop_first(), c);
            let rest = split_acc(seq![], s.drop_first(), c);
            assert(lower_all(seq![cur] + rest) =~= seq![ascii_lower(cur)] + lower_all(rest));
        } else {
            assert(ascii_lower(cur.push(s[0])) =~= ascii_lower(cur).push(ls[0]));
            lemma_lower_split_acc(cur.push(s[0]), s.drop_first(), c);
        }
    }
}

pub proof fn lemma_lower_split(s: Seq<char>, c: char)
    requires
        !is_alpha(c),
    ensures
        split(ascii_lower(s), c) == lower_all(split(s, c)),
{
    assert(ascii_lower(Seq::<char>::empty()) =~= Seq::<char>::empty());
    lemma_lower_split_acc(seq![], s, c);
}

proof fn lemma_lower_last_index_of(s: Seq<char>, c: char)
    requires
        !is_alpha(c),
    ensures
        last_index_of(ascii_lower(s), c) == last_index_of(s, c),
    decreases s.len(),
{
    if s.len() > 0 {
        lemma_lower_char_is(s.last(), c);
        assert(ascii_lower(s).last() == lower_char(s.last()));
        assert(ascii_lower(s).drop_last() =~= ascii_lower(s.drop_last()));
        lemma_lower_last_index_of(s.drop_last(), c);
    }
}

proof fn lemma_lower_find_from(s: Seq<char>, p: Seq<char>, i: int)
    requires
        forall|k: int| 0 <= k < p.len() ==> !is_alpha(#[trigger] p[k]),
    ensures
        find_from(ascii_lower(s), p, i) == find_from(s, p, i),
    decreases s.len() + 1 - i,
{
    if !(i < 0 || i + p.len() > s.len()) {
        crate::text::lemma_ascii_lower_subrange(s, i, i + p.len());
        lemma_lower_eq_no_letters(s.subrange(i, i + p.len()), p);
        lemma_lower_find_from(s, p, i + 1);
    }
}

proof fn lemma_lower_find(s: Seq<char>, p: Seq<char>)
    requires
        forall|k: int| 0 <= k < p.len() ==> !is_alpha(#[trigger] p[k]),
    ensures
        find(ascii_lower(s), p) == find(s, p),
{
    lemma_lower_find_from(s, p, 0);
}

proof fn lemma_lower_trim_end_char(s: Seq<char>, c: char)
    requires
        !is_alpha(c),
    ensures
        trim_end_char(ascii_lower(s), c) == ascii_lower(trim_end_char(s, c)),
    decreases s.len(),
{
    if s.len() > 0 {
        lemma_lower_char_is(s.last(), c);
        assert(ascii_lower(s).last() == lower_char(s.last()));
        assert(ascii_lower(s).drop_last() =~= ascii_lower(s.drop_last()));
        lemma_lower_trim_end_char(s.drop_last(), c);
    }
}

proof fn lemma_last_index_bound(s: Seq<char>, c: char)
    ensures
        last_index_of(s, c) matches Some(i) ==> 0 <= i < s.len(),
    decreases s.len(),
{
    if s.len() > 0 && s.last() != c {
        lemma_last_index_bound(s.drop_last(), c);
    }
}

proof fn lemma_lower_without_port(v: Seq<char>)
    ensures
        without_port(ascii_lower(v)) == ascii_lower(without_port(v)),
{
    lemma_lower_last_index_of(v, ':');
    if let Some(i) = last_index_of(v, ':') {
        lemma_last_index_bound(v, ':');
        lemma_lower_take_skip(v, i);
        lemma_lower_take_skip(v, i + 1);
        lemma_lower_all_digits(v.skip(i + 1));
    }
}

proof fn lemma_lower_octet(t: Seq<char>)
    ensures
        is_octet(ascii_lower(t)) == is_octet(t),
        is_hex_group(ascii_lower(t)) == is_hex_group(t),
{
    lemma_lower_all_digits(t);
}

proof fn lemma_lower_all_hex_groups(parts: Seq<Seq<char>>, n: int)
    requires
        0 <= n <= parts.len(),
    ensures
        all_hex_groups(lower_all(parts), n) == all_hex_groups(parts, n),
{
    let lp = lower_all(parts);
    if all_hex_groups(parts, n) {
        assert forall|i: int| 0 <= i < n implies is_hex_group(#[trigger] lp[i]) by {
            lemma_lower_octet(parts[i]);
        }
    }
    if all_hex_groups(lp, n) {
        assert forall|i: int| 0 <= i < n implies is_hex_group(#[trigger] parts[i]) by {
            lemma_lower_octet(parts[i]);
            assert(is_hex_group(lp[i]));
        }
    }
}

proof fn lemma_lower_ipv4(s: Seq<char>)
    ensures
        is_ipv4(ascii_lower(s)) == is_ipv4(s),
{
    lemma_lower_split(s, '.');
    let parts = split(s, '.');
    let lp = lower_all(parts);
    if parts.len() == 4 {
        if is_ipv4(s) {
            assert forall|i: int| 0 <= i < 4 implies is_octet(#[trigger] lp[i]) by {
                lemma_lower_octet(parts[i]);
            }
        }
        if is_ipv4(ascii_lower(s)) {
            assert forall|i: int| 0 <= i < 4 implies is_octet(#[trigger] parts[i]) by {
                lemma_lower_octet(parts[i]);
                assert(is_octet(lp[i]));
            }
        }
    }
}

proof fn lemma_lower_group_count(t: Seq<char>)
    ensures
        group_count(ascii_lower(t)) == group_count(t),
        head_count(ascii_lower(t)) == head_count(t),
        tail_count(ascii_lower(t)) == tail_count(t),
{
    lemma_lower_split(t, ':');
    let parts = split(t, ':');
    let n = parts.len() as int;
    if n >= 1 {
        lemma_lower_all_hex_groups(parts, n);
        lemma_lower_all_hex_groups(parts, n - 1);
        lemma_lower_ipv4(parts[n - 1]);
    }
    lemma_lower_all_hex_groups(parts, n);
}

proof fn lemma_lower_ipv6(s: Seq<char>)
    ensures
        is_ipv6(ascii_lower(s)) == is_ipv6(s),
{
    let dc = double_colon();
    assert(dc[0] == ':' && dc[1] == ':');
    lemma_lower_find(s, dc);
    lemma_lower_group_count(s);
    if let Some(k) = find(s, dc) {
        crate::text::lemma_find(s, dc);
        lemma_lower_take_skip(s, k);
        lemma_lower_take_skip(s, k + 2);
        lemma_lower_group_count(s.take(k));
        lemma_lower_group_count(s.skip(k + 2));
    }
}

/// Whether a text is an IP-address literal does not depend on the case of
/// its hexadecimal digits.
pub proof fn lemma_lower_ip_addr(s: Seq<char>)
    ensures
        is_ip_addr(ascii_lower(s)) == is_ip_addr(s),
{
    lemma_lower_ipv4(s);
    lemma_lower_ipv6(s);
}

proof fn lemma_lower_label(x: Seq<char>)
    ensures
        is_label(ascii_lower(x)) == is_label(x),
{
    let l = ascii_lower(x);
    if x.len() > 0 {
        assert(l[0] == lower_char(x[0]));
        assert(l.last() == lower_char(x.last()));
        lemma_lower_char_is(x[0], '-');
        lemma_lower_char_is(x.last(), '-');
    }
    assert forall|i: int| 0 <= i < x.len() implies (is_alnum(#[trigger] l[i]) || l[i] == '-') == (
    is_alnum(x[i]) || x[i] == '-') by {
        lemma_lower_char(x[i]);
        lemma_lower_char_is(x[i], '-');
    }
    if is_label(x) {
        assert forall|i: int| 0 <= i < l.len() implies is_alnum(#[trigger] l[i]) || l[i] == '-' by {
            assert(is_alnum(x[i]) || x[i] == '-');
        }
    }
    if is_label(l) {
        assert forall|i: int| 0 <= i < x.len() implies is_alnum(#[trigger] x[i]) || x[i] == '-' by {
            assert(is_alnum(l[i]) || l[i] == '-');
        }
    }
}

proof fn lemma_without_port_prefix(v: Seq<char>)
    ensures
        without_port(v).len() <= v.len(),
        v.take(without_port(v).len() as int) == without_port(v),
{
    lemma_last_index_bound(v, ':');
    assert(v.take(v.len() as int) =~= v);
    if let Some(i) = last_index_of(v, ':') {
        assert(v.take(i).len() == i);
    }
}

pub open spec fn www() -> Seq<char> {
    "www."@
}

proof fn lemma_www()
    ensures
        www().len() == 4,
        ascii_lower(www()) == www(),
{
    reveal_strlit("www.");
    assert(ascii_lower(www()) =~= www());
}

/// Lower-casing a host token keeps it one, unless it then starts with
/// `www.` (which is skipped only in lower case).
pub proof fn lemma_lower_host_shaped(d: Seq<char>)
    requires
        !starts_with(ascii_lower(d), www()),
    ensures
        is_host_shaped(ascii_lower(d)) == is_host_shaped(d),
{
    lemma_www();
    let h = without_port(d);
    let lh = ascii_lower(h);
    lemma_lower_without_port(d);
    lemma_lower_ip_addr(h);
    lemma_without_port_prefix(d);
    lemma_lower_take_skip(d, h.len() as int);
    assert(!starts_with(lh, www())) by {
        if starts_with(lh, www()) {
            assert(ascii_lower(d).take(h.len() as int) == lh);
            assert(ascii_lower(d).take(4) =~= lh.take(4));
        }
    }
    assert(!starts_with(h, www())) by {
        if starts_with(h, www()) {
            lemma_lower_take_skip(h, 4);
        }
    }
    assert(strip_www(h) == h);
    assert(strip_www(lh) == lh);
    lemma_lower_trim_end_char(h, '.');
    let c = trim_end_char(h, '.');
    lemma_lower_split(c, '.');
    let labels = split(c, '.');
    let ll = lower_all(labels);
    if labels.len() >= 1 {
        assert(ll.last() == ascii_lower(labels.last()));
        lemma_lower_all_digits(labels.last());
    }
    assert forall|i: int| 0 <= i < labels.len() implies is_label(#[trigger] ll[i]) == is_label(
        labels[i],
    ) by {
        lemma_lower_label(labels[i]);
    }
    if forall|i: int| 0 <= i < labels.len() ==> is_label(#[trigger] labels[i]) {
        assert forall|i: int| 0 <= i < ll.len() implies is_label(#[trigger] ll[i]) by {
            assert(is_label(labels[i]));
        }
    }
    if forall|i: int| 0 <= i < ll.len() ==> is_label(#[trigger] ll[i]) {
        assert forall|i: int| 0 <= i < labels.len() implies is_label(#[trigger] labels[i]) by {
            assert(is_label(ll[i]));
        }
    }
}

proof fn lemma_trim_start_first(s: Seq<char>)
    ensures
        trim_start(s).len() > 0 ==> !is_ws(trim_start(s)[0]),
        trim_start(s).len() > 0 ==> trim_start(s).last() == s.last(),
    decreases s.len(),
{
    if s.len() > 0 && is_ws(s[0]) {
        lemma_trim_start_first(s.drop_first());
    }
}

proof fn lemma_trim_end_shape(x: Seq<char>)
    ensures
        trim_end(x).len() > 0 ==> !is_ws(trim_end(x).last()) && trim_end(x)[0] == x[0],
    decreases x.len(),
{
    if x.len() > 0 && is_ws(x.last()) {
        lemma_trim_end_shape(x.drop_last());
    }
}

/// The first and last characters of trimmed text are not whitespace.
proof fn lemma_trim_ends(s: Seq<char>)
    ensures
        trim(s).len() > 0 ==> !is_ws(trim(s)[0]) && !is_ws(trim(s).last()),
{
    lemma_trim_start_first(s);
    lemma_trim_end_shape(trim_start(s));
}

/// Text that neither starts nor ends with whitespace is its own trim.
pub proof fn lemma_trim_fixed(s: Seq<char>)
    requires
        s.len() > 0,
        !is_ws(s[0]),
        !is_ws(s.last()),
    ensures
        trim(s) == s,
{
}

/// Redacting an already redacted e-mail field gives it back unchanged,
/// unless its kept domain starts with `www.`: `R***@example.com` stays as it
/// is. (`a@WWW.com` is redacted to `a***@www.com`, whose lower-case domain
/// loses its `www.` and with it a label, so it is not kept a second time.)
pub proof fn law_redact_email_is_idempotent(value: Seq<char>)
    requires
        redacted_email(value).contains('@'),
        !crate::text::contains_seq(redacted_email(value), "@www."@),
    ensures
        redacted_email(redacted_email(value)) == redacted_email(value),
{
    reveal_strlit("[redacted]");
    reveal_strlit("[redacted-email]");
    reveal_strlit("***@");
    reveal_strlit("@www.");
    reveal_strlit("www.");
    lemma_www();
    let r = redacted_email(value);
    let tr = trim(value);
    let at = seq!['@'];
    assert(at[0] == '@');
    if "[redacted]"@.contains('@') {
        let k = choose|k: int| 0 <= k < "[redacted]"@.len() && "[redacted]"@[k] == '@';
    }
    if "[redacted-email]"@.contains('@') {
        let k = choose|k: int| 0 <= k < "[redacted-email]"@.len() && "[redacted-email]"@[k] == '@';
    }
    crate::text::lemma_find(tr, at);
    let i = find(tr, at)->0;
    let local = tr.take(i);
    let domain = tr.skip(i + 1);
    let ld = ascii_lower(domain);
    assert(local.len() > 0);
    assert(r == seq![local[0]] + "***@"@ + ld);
    // the first character is not `@`, so the first `@` of `r` is its fifth
    assert(tr[0] != '@') by {
        if tr[0] == '@' {
            assert(tr.subrange(0, 1) =~= at);
        }
    }
    assert(r[0] == tr[0]);
    assert(r[4] == '@');
    assert(r.skip(5) =~= ld);
    assert(occurs_at(r, at, 4)) by {
        assert(r.subrange(4, 5) =~= at);
    }
    assert forall|j: int| 0 <= j < 4 implies !occurs_at(r, at, j) by {
        if occurs_at(r, at, j) {
            assert(r.subrange(j, j + 1)[0] == r[j]);
        }
    }
    crate::text::lemma_find(r, at);
    assert(find(r, at) == Some(4int));
    // `r` is already trimmed
    lemma_trim_ends(value);
    assert(!is_ws(r.last())) by {
        if domain.len() > 0 {
            assert(ld.last() == lower_char(domain.last()));
            assert(domain.last() == tr.last());
            lemma_lower_char(domain.last());
        } else {
            assert(r.last() == '@');
        }
    }
    lemma_trim_fixed(r);
    // the kept domain has no `@`
    assert(!ld.contains('@')) by {
        if ld.contains('@') {
            let k = choose|k: int| 0 <= k < ld.len() && ld[k] == '@';
            lemma_lower_char_is(domain[k], '@');
            assert(domain.contains('@'));
        }
    }
    // nor does it start with `www.`, so it is still a host token
    assert(!starts_with(ld, www())) by {
        if starts_with(ld, www()) {
            let m = "@www."@;
            assert(ld.take(4) == www());
            assert forall|k: int| 0 <= k < 4 implies r[5 + k] == #[trigger] ld[k] by {}
            assert forall|k: int| 0 <= k < 4 implies ld[k] == #[trigger] www()[k] by {
                assert(ld.take(4)[k] == ld[k]);
            }
            assert(r[5] == 'w' && r[6] == 'w' && r[7] == 'w' && r[8] == '.') by {
                assert(ld[0] == www()[0]);
                assert(ld[1] == www()[1]);
                assert(ld[2] == www()[2]);
                assert(ld[3] == www()[3]);
            }
            assert(r.subrange(4, 9) =~= m);
            assert(occurs_at(r, m, 4));
            crate::text::lemma_find(r, m);
        }
    }
    lemma_lower_host_shaped(domain);
    crate::text::lemma_ascii_lower_idempotent(domain);
    assert(r.take(4)[0] == r[0]);
    assert(redacted_email(r) =~= r);
}

// ---------------------------------------------------------------------------
// Dotted names of DNS labels are host tokens
// ---------------------------------------------------------------------------

/// A DNS label: ASCII letters, digits and hyphens, neither starting nor
/// ending with a hyphen.
pub open spec fn dns_label(l: Seq<char>) -> bool {
    &&& l.len() > 0
    &&& l[0] != '-'
    &&& l.last() != '-'
    &&& forall|k: int| 0 <= k < l.len() ==> crate::oci_ledger::ascii_alnum(#[trigger] l[k]) || l[k] == '-'
}

/// A top-level label: two or more ASCII letters.
pub open spec fn top_level_label(l: Seq<char>) -> bool {
    &&& l.len() >= 2
    &&& forall|k: int| 0 <= k < l.len() ==> ('a' <= #[trigger] l[k] && l[k] <= 'z') || ('A' <= l[k]
        && l[k] <= 'Z')
}

proof fn lemma_split_acc_no_sep(cur: Seq<char>, a: Seq<char>, c: char)
    requires
        !a.contains(c),
    ensures
        split_acc(cur, a, c) == seq![cur + a],
    decreases a.len(),
{
    if a.len() == 0 {
        assert(cur + a =~= cur);
    } else {
        assert(a[0] != c);
        assert(!a.drop_first().contains(c)) by {
            if a.drop_first().contains(c) {
                let k = choose|k: int| 0 <= k < a.drop_first().len() && a.drop_first()[k] == c;
                assert(a[k + 1] == c);
            }
        }
        lemma_split_acc_no_sep(cur.push(a[0]), a.drop_first(), c);
        assert(cur.push(a[0]) + a.drop_first() =~= cur + a);
    }
}

proof fn lemma_split_acc_at_sep(cur: Seq<char>, x: Seq<char>, y: Seq<char>, c: char)
    ensures
        split_acc(cur, x + seq![c] + y, c) == split_acc(cur, x, c) + split_acc(seq![], y, c),
    decreases x.len(),
{
    let s = x + seq![c] + y;
    if x.len() == 0 {
        assert(s[0] == c);
        assert(s.drop_first() =~= y);
    } else {
        assert(s[0] == x[0]);
        assert(s.drop_first() =~= x.drop_first() + seq![c] + y);
        if x[0] == c {
            lemma_split_acc_at_sep(seq![], x.drop_first(), y, c);
            let p = split_acc(seq![], x.drop_first(), c);
            let q = split_acc(seq![], y, c);
            assert(seq![cur] + (p + q) =~= (seq![cur] + p) + q);
        } else {
            lemma_split_acc_at_sep(cur.push(x[0]), x.drop_first(), y, c);
        }
    }
}

/// Splitting labels joined by `.` gives the labels back.
proof fn lemma_split_join(ws: Seq<Seq<char>>)
    requires
        ws.len() >= 1,
        forall|i: int| 0 <= i < ws.len() ==> !(#[trigger] ws[i]).contains('.'),
    ensures
        split(crate::text::join(ws, "."@), '.') == ws,
    decreases ws.len(),
{
    reveal_strlit(".");
    if ws.len() == 1 {
        lemma_split_acc_no_sep(seq![], ws[0], '.');
        assert(Seq::<char>::empty() + ws[0] =~= ws[0]);
        assert(seq![ws[0]] =~= ws);
    } else {
        let p = ws.drop_last();
        assert forall|i: int| 0 <= i < p.len() implies !(#[trigger] p[i]).contains('.') by {
            assert(p[i] == ws[i]);
        }
        lemma_split_join(p);
        let j = crate::text::join(p, "."@);
        assert(crate::text::join(ws, "."@) == j + seq!['.'] + ws.last());
        lemma_split_acc_at_sep(seq![], j, ws.last(), '.');
        assert(!ws[ws.len() - 1].contains('.'));
        lemma_split_acc_no_sep(seq![], ws.last(), '.');
        assert(Seq::<char>::empty() + ws.last() =~= ws.last());
        assert(p + seq![ws.last()] =~= ws);
    }
}

/// Every character of labels joined by `.` is a label character or `.`.
proof fn lemma_join_chars(ws: Seq<Seq<char>>)
    requires
        forall|i: int| 0 <= i < ws.len() ==> dns_label(#[trigger] ws[i]),
    ensures
        forall|k: int|
            0 <= k < crate::text::join(ws, "."@).len() ==> crate::oci_ledger::ascii_alnum(
                #[trigger] crate::text::join(ws, "."@)[k],
            ) || crate::text::join(ws, "."@)[k] == '-' || crate::text::join(ws, "."@)[k] == '.',
    decreases ws.len(),
{
    reveal_strlit(".");
    if ws.len() == 1 {
        assert(dns_label(ws[0]));
    } else if ws.len() > 1 {
        let p = ws.drop_last();
        assert forall|i: int| 0 <= i < p.len() implies dns_label(#[trigger] p[i]) by {
            assert(p[i] == ws[i]);
        }
        lemma_join_chars(p);
        let j = crate::text::join(p, "."@);
        let l = ws.last();
        assert(dns_label(ws[ws.len() - 1]));
        let s = j + seq!['.'] + l;
        assert forall|k: int| 0 <= k < s.len() implies crate::oci_ledger::ascii_alnum(#[trigger] s[k])
            || s[k] == '-' || s[k] == '.' by {
            if k < j.len() {
                assert(s[k] == j[k]);
            } else if k > j.len() {
                assert(s[k] == l[k - j.len() - 1]);
            }
        }
    }
}

/// Labels joined by `.` start with the first label, then a `.`, and end
/// with the last label.
proof fn lemma_join_ends(ws: Seq<Seq<char>>)
    requires
        ws.len() >= 2,
    ensures
        crate::text::join(ws, "."@).len() > ws[0].len(),
        crate::text::join(ws, "."@).take(ws[0].len() as int) == ws[0],
        crate::text::join(ws, "."@)[ws[0].len() as int] == '.',
        ws.last().len() > 0 ==> crate::text::join(ws, "."@).last() == ws.last().last(),
    decreases ws.len(),
{
    reveal_strlit(".");
    let p = ws.drop_last();
    let j = crate::text::join(p, "."@);
    let s = j + seq!['.'] + ws.last();
    assert(crate::text::join(ws, "."@) == s);
    if ws.len() == 2 {
        assert(j == ws[0]);
        assert(s.take(ws[0].len() as int) =~= ws[0]);
    } else {
        lemma_join_ends(p);
        assert(p[0] == ws[0]);
        assert(s.take(ws[0].len() as int) =~= j.take(ws[0].len() as int));
        assert(s[ws[0].len() as int] == j[ws[0].len() as int]);
    }
}

proof fn lemma_no_char_no_last_index(s: Seq<char>, c: char)
    requires
        !s.contains(c),
    ensures
        last_index_of(s, c) is None,
    decreases s.len(),
{
    if s.len() > 0 {
        assert(s.last() == s[s.len() - 1]);
        assert(!s.drop_last().contains(c)) by {
            if s.drop_last().contains(c) {
                let k = choose|k: int| 0 <= k < s.drop_last().len() && s.drop_last()[k] == c;
                assert(s[k] == c);
            }
        }
        lemma_no_char_no_last_index(s.drop_last(), c);
    }
}

/// Two or more DNS labels joined by dots, the last of them a top-level label
/// of two or more letters, name a host, however many labels there are
/// (a first label `www` aside, which is skipped): `smtp.mail.example.com`
/// is a host token as `example.com` is.
pub proof fn law_dns_names_are_host_tokens(labels: Seq<Seq<char>>)
    requires
        labels.len() >= 2,
        forall|i: int| 0 <= i < labels.len() ==> dns_label(#[trigger] labels[i]),
        top_level_label(labels.last()),
        labels[0] != "www"@,
    ensures
        is_host_shaped(crate::text::join(labels, "."@)),
{
    reveal_strlit("www.");
    lemma_www();
    let v = crate::text::join(labels, "."@);
    lemma_join_chars(labels);
    assert forall|i: int| 0 <= i < labels.len() implies !(#[trigger] labels[i]).contains('.') by {
        assert(dns_label(labels[i]));
        if labels[i].contains('.') {
            let k = choose|k: int| 0 <= k < labels[i].len() && labels[i][k] == '.';
            assert(crate::oci_ledger::ascii_alnum(labels[i][k]) || labels[i][k] == '-');
        }
    }
    lemma_split_join(labels);
    lemma_join_ends(labels);
    assert(!v.contains(':')) by {
        if v.contains(':') {
            let k = choose|k: int| 0 <= k < v.len() && v[k] == ':';
            assert(crate::oci_ledger::ascii_alnum(v[k]) || v[k] == '-' || v[k] == '.');
        }
    }
    lemma_no_char_no_last_index(v, ':');
    assert(without_port(v) == v);
    if !is_ip_addr(v) {
        let l0 = labels[0];
        assert(dns_label(l0));
        // `v` does not start with `www.`
        assert(!starts_with(v, www())) by {
            if starts_with(v, www()) {
                assert(v.take(4) == www());
                if l0.len() >= 4 {
                    assert(v[3] == l0[3]) by {
                        assert(v.take(l0.len() as int)[3] == v[3]);
                    }
                    assert(www()[3] == '.');
                    assert(crate::oci_ledger::ascii_alnum(l0[3]) || l0[3] == '-');
                } else if l0.len() == 3 {
                    assert forall|k: int| 0 <= k < 3 implies l0[k] == #[trigger] www()[k] by {
                        assert(v.take(3)[k] == v[k]);
                        assert(v.take(4)[k] == v[k]);
                    }
                    reveal_strlit("www");
                    assert(l0 =~= "www"@);
                } else {
                    assert(v[l0.len() as int] == '.');
                    assert(v.take(4)[l0.len() as int] == www()[l0.len() as int]);
                }
            }
        }
        assert(strip_www(v) == v);
        let last = labels.last();
        assert(top_level_label(last));
        assert(v.last() == last.last());
        assert(trim_end_char(v, '.') == v);
        assert(labels.last() == labels[labels.len() - 1]);
        assert(all_alpha(last)) by {
            assert forall|k: int| 0 <= k < last.len() implies is_alpha(#[trigger] last[k]) by {
                assert(('a' <= last[k] && last[k] <= 'z') || ('A' <= last[k] && last[k] <= 'Z'));
            }
        }
        assert forall|i: int| 0 <= i < labels.len() implies is_label(#[trigger] labels[i]) by {
            let l = labels[i];
            assert(dns_label(l));
            assert forall|k: int| 0 <= k < l.len() implies is_alnum(#[trigger] l[k]) || l[k] == '-' by {
                assert(crate::oci_ledger::ascii_alnum(l[k]) || l[k] == '-');
            }
        }
    }
}

proof fn lemma_digit_char(k: nat)
    requires
        k < 10,
    ensures
        crate::ip::digit_value(crate::text::digit_char(k)) == k,
        is_digit(crate::text::digit_char(k)),
        k > 0 ==> crate::text::digit_char(k) != '0',
{
}

proof fn lemma_decimal_octet(n: nat)
    requires
        n < 256,
    ensures
        is_octet(decimal(n)),
        !decimal(n).contains('.'),
{
    reveal_with_fuel(crate::text::decimal, 3);
    reveal_with_fuel(crate::ip::decimal_value, 4);
    lemma_digit_char(n % 10);
    lemma_digit_char((n / 10) % 10);
    lemma_digit_char(n / 100);
    if n < 100 {
        lemma_digit_char(n / 10);
    }
    let s = decimal(n);
    if n < 10 {
        assert(s.len() == 1);
    } else if n < 100 {
        assert(s == seq![crate::text::digit_char(n / 10), crate::text::digit_char(n % 10)]);
        assert(s.drop_last() =~= seq![crate::text::digit_char(n / 10)]);
        assert(crate::ip::decimal_value(s) == (n / 10) * 10 + n % 10);
    } else {
        let a = crate::text::digit_char(n / 100);
        let b = crate::text::digit_char((n / 10) % 10);
        let c = crate::text::digit_char(n % 10);
        assert(n / 10 / 10 == n / 100);
        assert(s == seq![a, b, c]);
        assert(s.drop_last() =~= seq![a, b]);
        assert(s.drop_last().drop_last() =~= seq![a]);
        assert(crate::ip::decimal_value(s) == ((n / 100) * 10 + (n / 10) % 10) * 10 + n % 10);
    }
    assert forall|i: int| 0 <= i < s.len() implies is_digit(#[trigger] s[i]) by {}
    if s.contains('.') {
        let k = choose|k: int| 0 <= k < s.len() && s[k] == '.';
        assert(is_digit(s[k]));
    }
}

/// Every dotted quad of numbers below 256, written in decimal, is an IP
/// address literal, and so a host token.
pub proof fn law_dotted_quads_are_ip_addresses(a: nat, b: nat, c: nat, d: nat)
    requires
        a < 256,
        b < 256,
        c < 256,
        d < 256,
    ensures
        is_ip_addr(crate::text::join(seq![decimal(a), decimal(b), decimal(c), decimal(d)], "."@)),
        is_host_shaped(crate::text::join(seq![decimal(a), decimal(b), decimal(c), decimal(d)], "."@)),
{
    let parts = seq![decimal(a), decimal(b), decimal(c), decimal(d)];
    lemma_decimal_octet(a);
    lemma_decimal_octet(b);
    lemma_decimal_octet(c);
    lemma_decimal_octet(d);
    assert forall|i: int| 0 <= i < parts.len() implies !(#[trigger] parts[i]).contains('.') && is_octet(
        parts[i],
    ) by {}
    lemma_split_join(parts);
    let v = crate::text::join(parts, "."@);
    assert(is_ipv4(v));
    // no `:`, so there is no port to take off
    reveal_strlit(".");
    assert(!v.contains(':')) by {
        reveal_with_fuel(crate::text::join, 4);
        if v.contains(':') {
            let k = choose|k: int| 0 <= k < v.len() && v[k] == ':';
            assert(v == parts[0] + seq!['.'] + parts[1] + seq!['.'] + parts[2] + seq!['.'] + parts[3]);
            assert forall|i: int| 0 <= i < 4 implies forall|j: int|
                0 <= j < (#[trigger] parts[i]).len() ==> is_digit(parts[i][j]) by {}
        }
    }
    lemma_no_char_no_last_index(v, ':');
}

/// An address `local@domain` whose domain is two or more DNS labels ending
/// in a top-level label of letters is redacted to the first character of
/// its local part, `***@` and the lower-cased domain: nothing else of the
/// local part is kept.
pub proof fn law_addresses_keep_first_character_and_domain(local: Seq<char>, labels: Seq<Seq<char>>)
    requires
        local.len() > 0,
        !local.contains('@'),
        !is_ws(local[0]),
        labels.len() >= 2,
        forall|i: int| 0 <= i < labels.len() ==> dns_label(#[trigger] labels[i]),
        top_level_label(labels.last()),
        labels[0] != "www"@,
    ensures
        redacted_email(local + "@"@ + crate::text::join(labels, "."@)) == seq![local[0]] + "***@"@
            + ascii_lower(crate::text::join(labels, "."@)),
{
    reveal_strlit("@");
    let d = crate::text::join(labels, "."@);
    let v = local + seq!['@'] + d;
    assert(local + "@"@ + d == v);
    law_dns_names_are_host_tokens(labels);
    lemma_join_chars(labels);
    lemma_join_ends(labels);
    let last = labels.last();
    assert(labels.last() == labels[labels.len() - 1]);
    assert(top_level_label(last));
    assert(v.last() == d.last());
    assert(d.last() == last.last());
    assert(!is_ws(v.last())) by {
        assert(('a' <= last.last() && last.last() <= 'z') || ('A' <= last.last() && last.last() <= 'Z'))
            by {
            assert(last.last() == last[last.len() - 1]);
        }
    }
    assert(v[0] == local[0]);
    lemma_trim_fixed(v);
    let at = seq!['@'];
    assert(occurs_at(v, at, local.len() as int)) by {
        assert(v.subrange(local.len() as int, local.len() + 1int) =~= at);
    }
    assert forall|j: int| 0 <= j < local.len() implies !occurs_at(v, at, j) by {
        if occurs_at(v, at, j) {
            assert(v.subrange(j, j + 1)[0] == v[j]);
            assert(v[j] == local[j]);
        }
    }
    crate::text::lemma_find(v, at);
    assert(find(v, at) == Some(local.len() as int));
    assert(v.take(local.len() as int) =~= local);
    assert(v.skip(local.len() + 1int) =~= d);
    assert(!d.contains('@')) by {
        if d.contains('@') {
            let k = choose|k: int| 0 <= k < d.len() && d[k] == '@';
            assert(crate::oci_ledger::ascii_alnum(d[k]) || d[k] == '-' || d[k] == '.');
        }
    }
}

} // verus!
