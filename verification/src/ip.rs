//! Recognition of textual IP addresses, as `str::parse::<IpAddr>` accepts
//! them: dotted-quad IPv4 without leading zeros, and IPv6 in hexadecimal
//! groups with at most one `::` and an optional embedded IPv4 tail.

use vstd::prelude::*;
use crate::text::{
    all_digits, all_hexdigits, copy_range, find, find_chars, is_ascii_digit, is_ascii_hexdigit, is_digit,
    is_hexdigit, lemma_find, occurs_at, split, split_acc, split_chars,
};

verus! {

pub open spec fn digit_value(c: char) -> int {
    (c as int) - ('0' as int)
}

/// The number written in decimal digits `t`.
pub open spec fn decimal_value(t: Seq<char>) -> int
    decreases t.len(),
{
    if t.len() == 0 {
        0
    } else {
        decimal_value(t.drop_last()) * 10 + digit_value(t.last())
    }
}

/// One IPv4 octet: one to three decimal digits, no leading zero, at most 255.
pub open spec fn is_octet(t: Seq<char>) -> bool {
    &&& 1 <= t.len() <= 3
    &&& all_digits(t)
    &&& (t.len() == 1 || t[0] != '0')
    &&& decimal_value(t) <= 255
}

/// A dotted-quad IPv4 address.
pub open spec fn is_ipv4(s: Seq<char>) -> bool {
    let parts = split(s, '.');
    &&& parts.len() == 4
    &&& forall|i: int| 0 <= i < 4 ==> is_octet(#[trigger] parts[i])
}

/// One IPv6 group: one to four hexadecimal digits.
pub open spec fn is_hex_group(t: Seq<char>) -> bool {
    1 <= t.len() <= 4 && all_hexdigits(t)
}

pub open spec fn all_hex_groups(parts: Seq<Seq<char>>, n: int) -> bool {
    forall|i: int| 0 <= i < n ==> is_hex_group(#[trigger] parts[i])
}

/// The number of 16-bit groups that `t` writes as `:`-separated hexadecimal
/// groups, the last of which may be an embedded IPv4 address worth two.
pub open spec fn group_count(t: Seq<char>) -> Option<nat> {
    let parts = split(t, ':');
    let n = parts.len();
    if n >= 1 && all_hex_groups(parts, n as int) {
        Some(n)
    } else if n >= 1 && all_hex_groups(parts, n - 1) && is_ipv4(parts[n - 1]) {
        Some(n + 1)
    } else {
        None
    }
}

/// Groups before a `::`: none, or `:`-separated hexadecimal groups.
pub open spec fn head_count(t: Seq<char>) -> Option<nat> {
    if t.len() == 0 {
        Some(0)
    } else if all_hex_groups(split(t, ':'), split(t, ':').len() as int) {
        Some(split(t, ':').len())
    } else {
        None
    }
}

/// Groups after a `::`: none, or as `group_count` says.
pub open spec fn tail_count(t: Seq<char>) -> Option<nat> {
    if t.len() == 0 {
        Some(0)
    } else {
        group_count(t)
    }
}

pub open spec fn double_colon() -> Seq<char> {
    seq![':', ':']
}

/// An IPv6 address: eight groups, or fewer around one `::` that stands for at
/// least one zero group.
pub open spec fn is_ipv6(s: Seq<char>) -> bool {
    match find(s, double_colon()) {
        None => group_count(s) == Some(8nat),
        Some(k) => match (head_count(s.take(k)), tail_count(s.skip(k + 2))) {
            (Some(h), Some(t)) => h + t <= 7,
            _ => false,
        },
    }
}

/// What `str::parse::<std::net::IpAddr>` accepts.
pub open spec fn is_ip_addr(s: Seq<char>) -> bool {
    is_ipv4(s) || is_ipv6(s)
}

fn is_octet_exec(t: &[char]) -> (b: bool)
    ensures
        b == is_octet(t@),
{
    let n = t.len();
    if n < 1 || n > 3 {
        return false;
    }
    let mut value: u32 = 0;
    let mut i: usize = 0;
    while i < n
        invariant
            n == t@.len(),
            1 <= n <= 3,
            i <= n,
            forall|k: int| 0 <= k < i ==> is_digit(#[trigger] t@[k]),
            value == decimal_value(t@.take(i as int)),
            value < 1000,
        decreases n - i,
    {
        if !is_ascii_digit(t[i]) {
            return false;
        }
        assert(t@.take(i + 1).drop_last() == t@.take(i as int));
        value = value * 10 + ((t[i] as u32) - 48);
        i = i + 1;
        assert(value <= 999) by {
            assert(decimal_value(t@.take(i as int)) <= 999) by {
                lemma_decimal_value_bound(t@.take(i as int));
            }
        }
    }
    assert(t@.take(n as int) == t@);
    (n == 1 || t[0] != '0') && value <= 255
}

proof fn lemma_decimal_value_bound(t: Seq<char>)
    requires
        t.len() <= 3,
        all_digits(t),
    ensures
        0 <= decimal_value(t),
        t.len() <= 1 ==> decimal_value(t) < 10,
        t.len() <= 2 ==> decimal_value(t) < 100,
        decimal_value(t) < 1000,
    decreases t.len(),
{
    if t.len() > 0 {
        let u = t.drop_last();
        assert(is_digit(t[t.len() - 1]));
        assert(all_digits(u));
        lemma_decimal_value_bound(u);
    }
}

pub fn is_ipv4_exec(s: &[char]) -> (b: bool)
    ensures
        b == is_ipv4(s@),
{
    let parts = split_chars(s, '.');
    if parts.len() != 4 {
        return false;
    }
    let ghost ps = split(s@, '.');
    for i in 0..4
        invariant
            parts.deep_view() == ps,
            ps == split(s@, '.'),
            ps.len() == 4,
            forall|k: int| 0 <= k < i ==> is_octet(#[trigger] ps[k]),
    {
        assert(parts[i as int]@ == ps[i as int]);
        if !is_octet_exec(parts[i].as_slice()) {
            assert(!is_octet(ps[i as int]));
            return false;
        }
    }
    true
}

fn is_hex_group_exec(t: &[char]) -> (b: bool)
    ensures
        b == is_hex_group(t@),
{
    let n = t.len();
    if n < 1 || n > 4 {
        return false;
    }
    for i in 0..n
        invariant
            n == t@.len(),
            forall|k: int| 0 <= k < i ==> is_hexdigit(#[trigger] t@[k]),
    {
        if !is_ascii_hexdigit(t[i]) {
            return false;
        }
    }
    true
}

/// Whether the first `n` of `parts` are hexadecimal groups.
fn all_hex_groups_exec(parts: &Vec<Vec<char>>, n: usize) -> (b: bool)
    requires
        n <= parts@.len(),
    ensures
        b == all_hex_groups(parts.deep_view(), n as int),
{
    for i in 0..n
        invariant
            n <= parts@.len(),
            all_hex_groups(parts.deep_view(), i as int),
    {
        assert(parts.deep_view()[i as int] == parts@[i as int]@);
        if !is_hex_group_exec(parts[i].as_slice()) {
            return false;
        }
    }
    true
}

pub proof fn lemma_split_acc_nonempty(cur: Seq<char>, s: Seq<char>, c: char)
    ensures
        split_acc(cur, s, c).len() >= 1,
    decreases s.len(),
{
    if s.len() > 0 {
        if s[0] == c {
            lemma_split_acc_nonempty(seq![], s.drop_first(), c);
        } else {
            lemma_split_acc_nonempty(cur.push(s[0]), s.drop_first(), c);
        }
    }
}

/// The pieces of `t` and whether the last one is an embedded IPv4 address,
/// when `group_count` accepts `t`.
fn group_count_exec(t: &[char]) -> (r: Option<(usize, bool)>)
    ensures
        r matches Some(p) ==> group_count(t@) == Some((p.0 + if p.1 {
            1nat
        } else {
            0nat
        }) as nat),
        r is None ==> group_count(t@) is None,
{
    let parts = split_chars(t, ':');
    let n = parts.len();
    proof {
        lemma_split_acc_nonempty(seq![], t@, ':');
    }
    if all_hex_groups_exec(&parts, n) {
        return Some((n, false));
    }
    if all_hex_groups_exec(&parts, n - 1) {
        assert(parts.deep_view()[n - 1] == parts@[n - 1]@);
        if is_ipv4_exec(parts[n - 1].as_slice()) {
            return Some((n, true));
        }
    }
    None
}

pub proof fn lemma_split_len(cur: Seq<char>, s: Seq<char>, c: char)
    ensures
        split_acc(cur, s, c).len() <= s.len() + 1,
    decreases s.len(),
{
    if s.len() > 0 {
        if s[0] == c {
            lemma_split_len(seq![], s.drop_first(), c);
        } else {
            lemma_split_len(cur.push(s[0]), s.drop_first(), c);
        }
    }
}

fn head_count_exec(t: &[char]) -> (r: Option<usize>)
    ensures
        r matches Some(k) ==> head_count(t@) == Some(k as nat),
        r is None ==> head_count(t@) is None,
{
    if t.len() == 0 {
        return Some(0);
    }
    let parts = split_chars(t, ':');
    let n = parts.len();
    if all_hex_groups_exec(&parts, n) {
        Some(n)
    } else {
        None
    }
}

pub fn is_ipv6_exec(s: &[char]) -> (b: bool)
    ensures
        b == is_ipv6(s@),
{
    let pat = vec![':', ':'];
    assert(pat@ == double_colon());
    match find_chars(s, pat.as_slice()) {
        None => {
            match group_count_exec(s) {
                Some((n, v4)) => if v4 {
                    n == 7
                } else {
                    n == 8
                },
                None => false,
            }
        },
        Some(k) => {
            proof {
                lemma_find(s@, double_colon());
                assert(occurs_at(s@, double_colon(), k as int));
            }
            let n = s.len();
            let head = copy_range(s, 0, k);
            let tail = copy_range(s, k + 2, n);
            assert(head@ == s@.take(k as int));
            assert(tail@ == s@.skip(k + 2));
            let h = head_count_exec(head.as_slice());
            let t = if tail.len() == 0 {
                Some((0, false))
            } else {
                group_count_exec(tail.as_slice())
            };
            match (h, t) {
                (Some(h), Some((n, v4))) => if v4 {
                    h <= 6 && n <= 6 - h
                } else {
                    h <= 7 && n <= 7 - h
                },
                _ => false,
            }
        },
    }
}

/// Whether `s` is an IPv4 or IPv6 address in the text form that
/// `str::parse::<std::net::IpAddr>` accepts.
pub fn is_ip_addr_exec(s: &[char]) -> (b: bool)
    ensures
        b == is_ip_addr(s@),
{
    is_ipv4_exec(s) || is_ipv6_exec(s)
}

} // verus!
