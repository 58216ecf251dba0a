//! Grammar validator for host specifiers used as server identities.
//!
//! A host specifier is a hostname or IPv4 literal, or a bracketed IPv6
//! literal, each optionally followed by `:` and a decimal port that fits in
//! sixteen bits. The validator is a pure predicate: it never fails, it only
//! answers whether the string matches the grammar.

use vstd::prelude::*;

verus! {

use vstd::string::StrSliceExecFns;

/// Character allowed in the host portion outside brackets: ASCII letters,
/// digits, `-` and `.`.
pub open spec fn is_host_char(c: char) -> bool {
    ('a' as u32 <= c as u32 && c as u32 <= 'z' as u32) || ('A' as u32 <= c as u32 && c as u32
        <= 'Z' as u32) || ('0' as u32 <= c as u32 && c as u32 <= '9' as u32) || c == '-' || c == '.'
}

/// ASCII decimal digit.
pub open spec fn is_dec_digit(c: char) -> bool {
    '0' as u32 <= c as u32 && c as u32 <= '9' as u32
}

/// ASCII hexadecimal digit.
pub open spec fn is_hex_digit(c: char) -> bool {
    is_dec_digit(c) || ('a' as u32 <= c as u32 && c as u32 <= 'f' as u32) || ('A' as u32 <= c
        as u32 && c as u32 <= 'F' as u32)
}

pub open spec fn all_host_chars(s: Seq<char>) -> bool {
    forall|k: int| 0 <= k < s.len() ==> is_host_char(s[k])
}

pub open spec fn all_dec_digits(s: Seq<char>) -> bool {
    forall|k: int| 0 <= k < s.len() ==> is_dec_digit(s[k])
}

/// Numeric value of one decimal digit.
pub open spec fn dec_digit_val(c: char) -> int {
    c as u32 - '0' as u32
}

/// Numeric value of a string of decimal digits, most significant first.
pub open spec fn dec_value(s: Seq<char>) -> int
    decreases s.len(),
{
    if s.len() == 0 {
        0
    } else {
        dec_value(s.drop_last()) * 10 + dec_digit_val(s.last())
    }
}

/// A legal port: one or more decimal digits whose value fits in sixteen
/// bits. Leading zeros are allowed; signs and any other character are not.
pub open spec fn spec_valid_port(s: Seq<char>) -> bool {
    s.len() >= 1 && all_dec_digits(s) && dec_value(s) <= 65535
}

/// Index of the first occurrence of `c` in `s`, or `s.len()` when absent.
pub open spec fn find_char(s: Seq<char>, c: char) -> int
    decreases s.len(),
{
    if s.len() == 0 {
        0
    } else if s[0] == c {
        0
    } else {
        1 + find_char(s.subrange(1, s.len() as int), c)
    }
}

/// Index of the first occurrence of `::` in `s`, or `s.len()` when absent.
pub open spec fn find_double_colon(s: Seq<char>) -> int
    decreases s.len(),
{
    if s.len() < 2 {
        s.len() as int
    } else if s[0] == ':' && s[1] == ':' {
        0
    } else {
        1 + find_double_colon(s.subrange(1, s.len() as int))
    }
}

/// One IPv6 group: one to four hexadecimal digits.
pub open spec fn valid_group(s: Seq<char>) -> bool {
    1 <= s.len() <= 4 && forall|k: int| 0 <= k < s.len() ==> is_hex_digit(s[k])
}

/// One dotted-decimal octet: one to three digits, value at most 255, no
/// leading zero.
pub open spec fn valid_octet(s: Seq<char>) -> bool {
    1 <= s.len() <= 3 && all_dec_digits(s) && dec_value(s) <= 255 && (s[0] != '0' || s.len() == 1)
}

/// `s` consists of exactly `n` octets separated by `.`.
pub open spec fn valid_ipv4_parts(s: Seq<char>, n: nat) -> bool
    decreases n,
{
    if n == 0 {
        false
    } else if n == 1 {
        valid_octet(s)
    } else {
        let i = find_char(s, '.');
        i < s.len() && valid_octet(s.take(i)) && valid_ipv4_parts(
            s.subrange(i + 1, s.len() as int),
            (n - 1) as nat,
        )
    }
}

/// An embedded IPv4 tail: four dotted octets.
pub open spec fn valid_ipv4(s: Seq<char>) -> bool {
    valid_ipv4_parts(s, 4)
}

/// The first occurrence of a character lies within the string.
pub proof fn lemma_find_char_bounds(s: Seq<char>, c: char)
    ensures
        0 <= find_char(s, c) <= s.len(),
        find_char(s, c) < s.len() ==> s[find_char(s, c)] == c,
    decreases s.len(),
{
    if s.len() > 0 && s[0] != c {
        lemma_find_char_bounds(s.subrange(1, s.len() as int), c);
    }
}

/// Number of groups when `s` is a `:`-separated list of hexadecimal
/// groups, and -1 otherwise.
pub open spec fn group_list_len(s: Seq<char>) -> int
    decreases s.len(),
    via group_list_len_decreases
{
    let i = find_char(s, ':');
    if !valid_group(s.take(i)) {
        -1
    } else if i == s.len() {
        1
    } else {
        let r = group_list_len(s.subrange(i + 1, s.len() as int));
        if r == -1 {
            -1
        } else {
            1 + r
        }
    }
}

#[via_fn]
proof fn group_list_len_decreases(s: Seq<char>) {
    lemma_find_char_bounds(s, ':');
}

/// Number of sixteen-bit slots that `s` fills when it is a `:`-separated
/// list of groups optionally ending in an embedded IPv4 address (which
/// fills two slots), and -1 otherwise.
pub open spec fn tail_slots(s: Seq<char>) -> int
    decreases s.len(),
    via tail_slots_decreases
{
    let i = find_char(s, ':');
    if i == s.len() {
        if valid_group(s) {
            1
        } else if valid_ipv4(s) {
            2
        } else {
            -1
        }
    } else if valid_group(s.take(i)) {
        let r = tail_slots(s.subrange(i + 1, s.len() as int));
        if r == -1 {
            -1
        } else {
            1 + r
        }
    } else {
        -1
    }
}

#[via_fn]
proof fn tail_slots_decreases(s: Seq<char>) {
    lemma_find_char_bounds(s, ':');
}

/// A textual IPv6 address: either eight slots of groups (the last two of
/// which may be an embedded IPv4 address), or a head and a tail of groups
/// around one `::` compression that together fill at most seven slots, so
/// that the compression stands for at least one zero group.
pub open spec fn spec_valid_ipv6(s: Seq<char>) -> bool {
    let j = find_double_colon(s);
    if j == s.len() {
        tail_slots(s) == 8
    } else {
        let head = s.take(j);
        let tail = s.subrange(j + 2, s.len() as int);
        let h = if head.len() == 0 {
            0
        } else {
            group_list_len(head)
        };
        let t = if tail.len() == 0 {
            0
        } else {
            tail_slots(tail)
        };
        h >= 0 && t >= 0 && h + t <= 7
    }
}

/// A legal host specifier: a bracketed IPv6 literal, or a span of hostname
/// characters, each optionally followed by `:` and a legal port.
pub open spec fn spec_valid_server_name(s: Seq<char>) -> bool {
    s.len() > 0 && if s[0] == '[' {
        let j = find_char(s, ']');
        j < s.len() && spec_valid_ipv6(s.subrange(1, j)) && (j + 1 == s.len() || (s[j + 1] == ':'
            && spec_valid_port(s.subrange(j + 2, s.len() as int))))
    } else {
        let i = find_char(s, ':');
        all_host_chars(s.take(i)) && (i == s.len() || spec_valid_port(
            s.subrange(i + 1, s.len() as int),
        ))
    }
}

proof fn lemma_find_char_is(s: Seq<char>, c: char, i: int)
    requires
        0 <= i <= s.len(),
        forall|k: int| 0 <= k < i ==> s[k] != c,
        i == s.len() || s[i] == c,
    ensures
        find_char(s, c) == i,
    decreases s.len(),
{
    if s.len() == 0 {
    } else if s[0] == c {
        assert(i == 0);
    } else {
        let sub = s.subrange(1, s.len() as int);
        assert(forall|k: int| 0 <= k < i - 1 ==> sub[k] == s[k + 1] && s[k + 1] != c);
        lemma_find_char_is(sub, c, i - 1);
    }
}

proof fn lemma_find_double_colon_is(s: Seq<char>, j: int)
    requires
        0 <= j <= s.len(),
        forall|k: int| #![trigger s[k]] 0 <= k < j && k + 1 < s.len() ==> !(s[k] == ':' && s[k + 1] == ':'),
        j < s.len() ==> j + 1 < s.len() && s[j] == ':' && s[j + 1] == ':',
    ensures
        find_double_colon(s) == j,
    decreases s.len(),
{
    if s.len() < 2 {
    } else if s[0] == ':' && s[1] == ':' {
        assert(j == 0);
    } else {
        let sub = s.subrange(1, s.len() as int);
        assert(forall|k: int|
            #![trigger sub[k]]
            0 <= k < j - 1 && k + 1 < sub.len() ==> !(sub[k] == ':' && sub[k + 1] == ':')) by {
            assert(forall|k: int|
                #![trigger sub[k]]
                0 <= k < sub.len() ==> sub[k] == s[k + 1]);
        }
        lemma_find_double_colon_is(sub, j - 1);
    }
}

proof fn lemma_dec_value_nonneg(s: Seq<char>)
    requires
        all_dec_digits(s),
    ensures
        dec_value(s) >= 0,
    decreases s.len(),
{
    if s.len() > 0 {
        assert(all_dec_digits(s.drop_last()));
        lemma_dec_value_nonneg(s.drop_last());
    }
}

proof fn lemma_dec_value_take_le(s: Seq<char>, i: int, j: int)
    requires
        0 <= i <= j <= s.len(),
        forall|k: int| 0 <= k < j ==> is_dec_digit(s[k]),
    ensures
        dec_value(s.take(i)) <= dec_value(s.take(j)),
    decreases j - i,
{
    if i < j {
        lemma_dec_value_take_le(s, i, j - 1);
        assert(all_dec_digits(s.take(j - 1)));
        lemma_dec_value_nonneg(s.take(j - 1));
        assert(s.take(j).drop_last() =~= s.take(j - 1));
        assert(dec_value(s.take(j)) == dec_value(s.take(j - 1)) * 10 + dec_digit_val(
            s.take(j).last(),
        ));
    }
}

proof fn lemma_dec_value_len_bound(s: Seq<char>)
    requires
        all_dec_digits(s),
        s.len() <= 3,
    ensures
        s.len() <= 1 ==> dec_value(s) <= 9,
        s.len() <= 2 ==> dec_value(s) <= 99,
        s.len() <= 3 ==> dec_value(s) <= 999,
    decreases s.len(),
{
    if s.len() > 0 {
        assert(all_dec_digits(s.drop_last()));
        lemma_dec_value_len_bound(s.drop_last());
    }
}

/// First index at or after which `c` occurs in `s`, or the length of `s`.
fn scan_char(s: &str, c: char) -> (r: usize)
    ensures
        r as int == find_char(s@, c),
        r as int <= s@.len(),
        (r as int) < s@.len() ==> s@[r as int] == c,
        forall|k: int| 0 <= k < r ==> s@[k] != c,
{
    let n = s.unicode_len();
    let mut i: usize = 0;
    while i < n
        invariant
            n as nat == s@.len(),
            i <= n,
            forall|k: int| 0 <= k < i ==> s@[k] != c,
        decreases n - i,
    {
        if s.get_char(i) == c {
            proof {
                lemma_find_char_is(s@, c, i as int);
            }
            return i;
        }
        i += 1;
    }
    proof {
        lemma_find_char_is(s@, c, n as int);
    }
    n
}

/// First index at which `::` occurs in `s`, or the length of `s`.
fn scan_double_colon(s: &str) -> (r: usize)
    ensures
        r as int == find_double_colon(s@),
        r as int <= s@.len(),
        (r as int) < s@.len() ==> r as int + 1 < s@.len() && s@[r as int] == ':' && s@[r as int
            + 1] == ':',
{
    let n = s.unicode_len();
    if n == 0 {
        proof {
            lemma_find_double_colon_is(s@, 0);
        }
        return 0;
    }
    let mut i: usize = 0;
    while i < n - 1
        invariant
            n as nat == s@.len(),
            n >= 1,
            i <= n,
            forall|k: int| #![trigger s@[k]] 0 <= k < i && k + 1 < s@.len() ==> !(s@[k] == ':' && s@[k + 1] == ':'),
        decreases n - i,
    {
        if s.get_char(i) == ':' && s.get_char(i + 1) == ':' {
            proof {
                lemma_find_double_colon_is(s@, i as int);
            }
            return i;
        }
        i += 1;
    }
    proof {
        lemma_find_double_colon_is(s@, n as int);
    }
    n
}

/// Whether every character of `s` before `end` is a hostname character.
fn host_span_ok(s: &str, end: usize) -> (r: bool)
    requires
        end as int <= s@.len(),
    ensures
        r == all_host_chars(s@.take(end as int)),
{
    let mut i: usize = 0;
    while i < end
        invariant
            end as int <= s@.len(),
            i <= end,
            forall|k: int| 0 <= k < i ==> is_host_char(s@[k]),
        decreases end - i,
    {
        let c = s.get_char(i);
        let u = c as u32;
        let ok = (97 <= u && u <= 122) || (65 <= u && u <= 90) || (48 <= u && u <= 57) || c == '-'
            || c == '.';
        if !ok {
            proof {
                assert(!is_host_char(s@.take(end as int)[i as int]));
            }
            return false;
        }
        i += 1;
    }
    proof {
        assert(forall|k: int| 0 <= k < end ==> s@.take(end as int)[k] == s@[k]);
    }
    true
}

/// Whether `s` is a legal port string.
fn port_ok(s: &str) -> (r: bool)
    ensures
        r == spec_valid_port(s@),
{
    let n = s.unicode_len();
    if n == 0 {
        return false;
    }
    let mut i: usize = 0;
    let mut val: u32 = 0;
    while i < n
        invariant
            n as nat == s@.len(),
            i <= n,
            forall|k: int| 0 <= k < i ==> is_dec_digit(s@[k]),
            val == dec_value(s@.take(i as int)),
            val <= 65535,
        decreases n - i,
    {
        let c = s.get_char(i);
        let u = c as u32;
        if !(48 <= u && u <= 57) {
            proof {
                assert(!is_dec_digit(s@[i as int]));
            }
            return false;
        }
        let newval = val * 10 + (u - 48);
        proof {
            assert(s@.take(i as int + 1).drop_last() =~= s@.take(i as int));
            assert(s@.take(i as int + 1).last() == s@[i as int]);
            assert(dec_value(s@.take(i as int + 1)) == val * 10 + dec_digit_val(s@[i as int]));
        }
        if newval > 65535 {
            proof {
                if all_dec_digits(s@) {
                    lemma_dec_value_take_le(s@, i as int + 1, n as int);
                    assert(s@.take(n as int) =~= s@);
                }
            }
            return false;
        }
        val = newval;
        i += 1;
    }
    proof {
        assert(s@.take(n as int) =~= s@);
    }
    true
}

/// Whether `s` is one hexadecimal group.
fn group_ok(s: &str) -> (r: bool)
    ensures
        r == valid_group(s@),
{
    let n = s.unicode_len();
    if n < 1 || n > 4 {
        return false;
    }
    let mut i: usize = 0;
    while i < n
        invariant
            n as nat == s@.len(),
            i <= n,
            forall|k: int| 0 <= k < i ==> is_hex_digit(s@[k]),
        decreases n - i,
    {
        let c = s.get_char(i);
        let u = c as u32;
        let ok = (48 <= u && u <= 57) || (97 <= u && u <= 102) || (65 <= u && u <= 70);
        if !ok {
            proof {
                assert(!is_hex_digit(s@[i as int]));
            }
            return false;
        }
        i += 1;
    }
    true
}

/// Whether `s` is one dotted-decimal octet.
fn octet_ok(s: &str) -> (r: bool)
    ensures
        r == valid_octet(s@),
{
    let n = s.unicode_len();
    if n < 1 || n > 3 {
        return false;
    }
    let mut i: usize = 0;
    let mut val: u32 = 0;
    while i < n
        invariant
            n as nat == s@.len(),
            1 <= n <= 3,
            i <= n,
            forall|k: int| 0 <= k < i ==> is_dec_digit(s@[k]),
            val == dec_value(s@.take(i as int)),
            val <= 999,
        decreases n - i,
    {
        let c = s.get_char(i);
        let u = c as u32;
        if !(48 <= u && u <= 57) {
            proof {
                assert(!is_dec_digit(s@[i as int]));
            }
            return false;
        }
        proof {
            assert(s@.take(i as int + 1).drop_last() =~= s@.take(i as int));
            assert(s@.take(i as int + 1).last() == s@[i as int]);
            assert(all_dec_digits(s@.take(i as int + 1)));
            lemma_dec_value_len_bound(s@.take(i as int + 1));
        }
        val = val * 10 + (u - 48);
        i += 1;
    }
    proof {
        assert(s@.take(n as int) =~= s@);
    }
    if val > 255 {
        return false;
    }
    let first = s.get_char(0);
    first as u32 != 48 || n == 1
}

/// Whether `s` is exactly `parts` dotted octets.
fn ipv4_parts_ok(s: &str, parts: u32) -> (r: bool)
    requires
        1 <= parts <= 4,
    ensures
        r == valid_ipv4_parts(s@, parts as nat),
    decreases parts,
{
    if parts == 1 {
        return octet_ok(s);
    }
    let n = s.unicode_len();
    let i = scan_char(s, '.');
    if i == n {
        return false;
    }
    let head = s.substring_char(0, i);
    proof {
        assert(head@ =~= s@.take(i as int));
    }
    if !octet_ok(head) {
        return false;
    }
    let rest = s.substring_char(i + 1, n);
    proof {
        assert(rest@ =~= s@.subrange(i as int + 1, s@.len() as int));
    }
    ipv4_parts_ok(rest, parts - 1)
}

/// Number of groups in a `:`-separated group list, or `None` when `s` is
/// no such list.
fn group_list_ok(s: &str) -> (r: Option<usize>)
    ensures
        match r {
            Some(k) => group_list_len(s@) == k as int && 1 <= k as int <= s@.len(),
            None => group_list_len(s@) == -1,
        },
    decreases s@.len(),
{
    let n = s.unicode_len();
    let i = scan_char(s, ':');
    let head = s.substring_char(0, i);
    proof {
        assert(head@ =~= s@.take(i as int));
    }
    if !group_ok(head) {
        return None;
    }
    if i == n {
        return Some(1);
    }
    let rest = s.substring_char(i + 1, n);
    proof {
        assert(rest@ =~= s@.subrange(i as int + 1, s@.len() as int));
    }
    match group_list_ok(rest) {
        None => None,
        Some(k) => Some(k + 1),
    }
}

/// Number of slots a tail of groups (optionally ending in an embedded
/// IPv4 address) fills, or `None` when `s` is no such tail.
fn tail_slots_ok(s: &str) -> (r: Option<usize>)
    ensures
        match r {
            Some(k) => tail_slots(s@) == k as int && 1 <= k as int <= s@.len() + 1,
            None => tail_slots(s@) == -1,
        },
    decreases s@.len(),
{
    let n = s.unicode_len();
    let i = scan_char(s, ':');
    if i == n {
        if group_ok(s) {
            return Some(1);
        }
        if ipv4_parts_ok(s, 4) {
            return Some(2);
        }
        return None;
    }
    let head = s.substring_char(0, i);
    proof {
        assert(head@ =~= s@.take(i as int));
    }
    if !group_ok(head) {
        return None;
    }
    let rest = s.substring_char(i + 1, n);
    proof {
        assert(rest@ =~= s@.subrange(i as int + 1, s@.len() as int));
    }
    match tail_slots_ok(rest) {
        None => None,
        Some(k) => Some(k + 1),
    }
}

/// Whether `s` is a textual IPv6 address.
fn ipv6_ok(s: &str) -> (r: bool)
    ensures
        r == spec_valid_ipv6(s@),
{
    let n = s.unicode_len();
    let j = scan_double_colon(s);
    if j == n {
        return match tail_slots_ok(s) {
            Some(k) => k == 8,
            None => false,
        };
    }
    let h: usize = if j == 0 {
        0
    } else {
        let head = s.substring_char(0, j);
        proof {
            assert(head@ =~= s@.take(j as int));
        }
        match group_list_ok(head) {
            Some(k) => k,
            None => {
                return false;
            },
        }
    };
    let t: usize = if j + 2 == n {
        0
    } else {
        let tail = s.substring_char(j + 2, n);
        proof {
            assert(tail@ =~= s@.subrange(j as int + 2, s@.len() as int));
        }
        match tail_slots_ok(tail) {
            Some(k) => k,
            None => {
                return false;
            },
        }
    };
    h + t <= 7
}

/// Check whether a given string is a valid server name.
///
/// A valid server name is a hostname or IPv4 literal, or a bracketed IPv6
/// literal, optionally followed by `:` and a port between 0 and 65535.
pub fn is_valid_server_name(name: &str) -> (r: bool)
    ensures
        r == spec_valid_server_name(name@),
{
    let n = name.unicode_len();
    if n == 0 {
        return false;
    }
    if name.get_char(0) == '[' {
        let j = scan_char(name, ']');
        if j == n {
            return false;
        }
        let body = name.substring_char(1, j);
        proof {
            assert(body@ =~= name@.subrange(1, j as int));
        }
        if !ipv6_ok(body) {
            return false;
        }
        if j + 1 == n {
            return true;
        }
        if name.get_char(j + 1) != ':' {
            return false;
        }
        let port = name.substring_char(j + 2, n);
        proof {
            assert(port@ =~= name@.subrange(j as int + 2, name@.len() as int));
        }
        port_ok(port)
    } else {
        let i = scan_char(name, ':');
        if !host_span_ok(name, i) {
            return false;
        }
        if i == n {
            return true;
        }
        let port = name.substring_char(i + 1, n);
        proof {
            assert(port@ =~= name@.subrange(i as int + 1, name@.len() as int));
        }
        port_ok(port)
    }
}

} // verus!
