use vstd::prelude::*;

use crate::text::{
    chars_of, check_all_digits,
    all_digits, digits_value, fields, is_digit, lemma_fields_len, lemma_fields_sep_first,
    lemma_fields_sep_pair, parse_digits_at_most, split_fields, views,
};

verus! {

/// ASCII hexadecimal digit, either case.
pub open spec fn is_hex_digit(c: char) -> bool {
    is_digit(c) || ('a' <= c && c <= 'f') || ('A' <= c && c <= 'F')
}

/// One 16-bit group of an IPv6 address: one to four hexadecimal digits.
pub open spec fn is_hex_group(f: Seq<char>) -> bool {
    1 <= f.len() <= 4 && forall|i: int| 0 <= i < f.len() ==> is_hex_digit(#[trigger] f[i])
}

/// One octet of a dotted-quad IPv4 address: one to three decimal digits without a
/// leading zero, at most 255.
pub open spec fn is_octet(f: Seq<char>) -> bool {
    &&& 1 <= f.len() <= 3
    &&& all_digits(f)
    &&& (f.len() > 1 ==> f[0] != '0')
    &&& digits_value(f) <= 255
}

/// A dotted-quad IPv4 address, as `std::net::Ipv4Addr` parses it.
pub open spec fn is_ipv4(s: Seq<char>) -> bool {
    &&& fields(s, '.').len() == 4
    &&& forall|k: int| 0 <= k < 4 ==> is_octet(#[trigger] fields(s, '.')[k])
}

/// The number of 16-bit groups in `t`, a colon-separated list of hexadecimal groups
/// that may end with an embedded IPv4 address (counting two groups) when `allow_v4`;
/// none when `t` is not such a list. The empty text has no groups.
pub open spec fn group_count(t: Seq<char>, allow_v4: bool) -> Option<nat> {
    if t.len() == 0 {
        Some(0)
    } else {
        let fs = fields(t, ':');
        let n = fs.len();
        if forall|k: int| 0 <= k < n - 1 ==> is_hex_group(#[trigger] fs[k]) {
            if is_hex_group(fs[n - 1]) {
                Some(n as nat)
            } else if allow_v4 && is_ipv4(fs[n - 1]) {
                Some((n + 1) as nat)
            } else {
                None
            }
        } else {
            None
        }
    }
}

/// `s` is `head::tail` with the `::` at `i`: the head holds plain groups, the tail may
/// end with an embedded IPv4 address, and together they leave at least one group for
/// the `::` to stand for.
pub open spec fn compressed_at(s: Seq<char>, i: int) -> bool {
    &&& 0 <= i
    &&& i + 1 < s.len()
    &&& s[i] == ':'
    &&& s[i + 1] == ':'
    &&& match (group_count(s.take(i), false), group_count(s.skip(i + 2), true)) {
        (Some(h), Some(t)) => h + t <= 7,
        _ => false,
    }
}

/// An IPv6 address in text form, as `std::net::Ipv6Addr` parses it: eight groups, or
/// six groups and an embedded IPv4 address, or a form compressed with one `::`.
pub open spec fn is_ipv6(s: Seq<char>) -> bool {
    group_count(s, true) == Some(8nat) || exists|i: int| #[trigger] compressed_at(s, i)
}

/// The prefix length that `s` denotes: one or more plain decimal digits (no sign)
/// whose value fits in a byte.
pub open spec fn parse_prefix_len(s: Seq<char>) -> Option<nat> {
    if s.len() >= 1 && all_digits(s) && digits_value(s) <= 255 {
        Some(digits_value(s))
    } else {
        None
    }
}

/// A control character (Unicode general category Cc).
pub open spec fn is_control(c: char) -> bool {
    c <= '\u{1f}' || ('\u{7f}' <= c && c <= '\u{9f}')
}

/// A shell metacharacter that may never appear in a prefix sent to a router.
pub open spec fn is_shell_meta(c: char) -> bool {
    c == ';' || c == '|' || c == '&' || c == '`' || c == '$' || c == '>' || c == '<' || c
        == '!' || c == '\\' || c == '\'' || c == '"' || c == '(' || c == ')' || c == '*' || c
        == '?' || c == '[' || c == ']' || c == '#' || c == '~'
}

/// A well-formed CIDR prefix: no control or shell characters, exactly one `/`, an
/// IPv4 address with a length of at most 32 or an IPv6 address with a length of at
/// most 128.
pub open spec fn valid_cidr_prefix(s: Seq<char>) -> bool {
    &&& forall|i: int| 0 <= i < s.len() ==> !is_control(#[trigger] s[i]) && !is_shell_meta(s[i])
    &&& fields(s, '/').len() == 2
    &&& match parse_prefix_len(fields(s, '/')[1]) {
        Some(n) => if is_ipv4(fields(s, '/')[0]) {
            n <= 32
        } else {
            is_ipv6(fields(s, '/')[0]) && n <= 128
        },
        None => false,
    }
}

/// A text without the separator is a single field.
proof fn lemma_fields_no_sep(s: Seq<char>, sep: char)
    requires
        !s.contains(sep),
    ensures
        fields(s, sep) == seq![s],
    decreases s.len(),
{
    if s.len() > 0 {
        let d = s.drop_last();
        assert(!d.contains(sep)) by {
            if d.contains(sep) {
                let i = choose|i: int| 0 <= i < d.len() && d[i] == sep;
                assert(s[i] == sep);
            }
        }
        lemma_fields_no_sep(d, sep);
        assert(s.last() != sep);
        assert(d.push(s.last()) == s);
    } else {
        assert(s == Seq::<char>::empty());
    }
}

/// Two texts without the separator, joined by one, are its two fields.
proof fn lemma_fields_one_sep(a: Seq<char>, b: Seq<char>, sep: char)
    requires
        !a.contains(sep),
        !b.contains(sep),
    ensures
        fields(a + seq![sep] + b, sep) == seq![a, b],
    decreases b.len(),
{
    let s = a + seq![sep] + b;
    if b.len() == 0 {
        assert(s.drop_last() == a);
        assert(s.last() == sep);
        lemma_fields_no_sep(a, sep);
        assert(b == Seq::<char>::empty());
    } else {
        let bd = b.drop_last();
        assert(!bd.contains(sep)) by {
            if bd.contains(sep) {
                let i = choose|i: int| 0 <= i < bd.len() && bd[i] == sep;
                assert(b[i] == sep);
            }
        }
        lemma_fields_one_sep(a, bd, sep);
        assert(s.drop_last() == a + seq![sep] + bd);
        assert(s.last() == b.last());
        assert(b.last() != sep);
        assert(bd.push(b.last()) == b);
    }
}

/// An address written with one `::` is an IPv6 address whenever the groups before it
/// are plain hexadecimal groups, the groups after it are hexadecimal groups possibly
/// ending with an embedded IPv4 address, and together they number at most seven, so
/// that the `::` stands for at least one group. Groups may stand on both sides of it,
/// as in `2001:db8::1`.
pub proof fn lemma_compressed_is_ipv6(head: Seq<char>, tail: Seq<char>)
    requires
        group_count(head, false) is Some,
        group_count(tail, true) is Some,
        group_count(head, false).unwrap() + group_count(tail, true).unwrap() <= 7,
    ensures
        is_ipv6(head + seq![':', ':'] + tail),
{
    let s = head + seq![':', ':'] + tail;
    let i = head.len() as int;
    assert(s.take(i) == head);
    assert(s.skip(i + 2) == tail);
    assert(s[i] == ':' && s[i + 1] == ':');
    assert(compressed_at(s, i));
}

/// Two hexadecimal groups, `::` and a third group, as in `2001:db8::1`, form an IPv6
/// address.
pub proof fn lemma_two_groups_then_compressed(a: Seq<char>, b: Seq<char>, c: Seq<char>)
    requires
        is_hex_group(a),
        is_hex_group(b),
        is_hex_group(c),
    ensures
        is_ipv6(a + seq![':'] + b + seq![':', ':'] + c),
{
    assert forall|g: Seq<char>| is_hex_group(g) implies !g.contains(':') by {
        if g.contains(':') {
            let i = choose|i: int| 0 <= i < g.len() && g[i] == ':';
            assert(is_hex_digit(g[i]));
        }
    }
    let head = a + seq![':'] + b;
    lemma_fields_one_sep(a, b, ':');
    assert(fields(head, ':')[0] == a && fields(head, ':')[1] == b);
    assert(group_count(head, false) == Some(2nat));
    lemma_fields_no_sep(c, ':');
    assert(fields(c, ':')[0] == c);
    assert(group_count(c, true) == Some(1nat));
    lemma_compressed_is_ipv6(head, c);
    assert(head + seq![':', ':'] + c == a + seq![':'] + b + seq![':', ':'] + c);
}

/// A compressed IPv6 address made of hexadecimal groups on both sides of its `::`,
/// followed by `/` and a length of at most 128, is a valid CIDR prefix.
pub proof fn lemma_compressed_cidr_valid(head: Seq<char>, tail: Seq<char>, len: Seq<char>)
    requires
        group_count(head, false) is Some,
        group_count(tail, true) is Some,
        group_count(head, false).unwrap() + group_count(tail, true).unwrap() <= 7,
        forall|i: int| 0 <= i < head.len() ==> is_hex_digit(#[trigger] head[i]) || head[i] == ':',
        forall|i: int| 0 <= i < tail.len() ==> is_hex_digit(#[trigger] tail[i]) || tail[i] == ':',
        1 <= len.len(),
        all_digits(len),
        digits_value(len) <= 128,
    ensures
        valid_cidr_prefix(head + seq![':', ':'] + tail + seq!['/'] + len),
{
    let addr = head + seq![':', ':'] + tail;
    let s = addr + seq!['/'] + len;
    lemma_compressed_is_ipv6(head, tail);
    assert forall|i: int| 0 <= i < addr.len() implies is_hex_digit(#[trigger] addr[i]) || addr[i] == ':' by {
        if i < head.len() {
            assert(addr[i] == head[i]);
        } else if i >= head.len() + 2 {
            assert(addr[i] == tail[i - head.len() - 2]);
        }
    }
    assert(!addr.contains('/')) by {
        if addr.contains('/') {
            let i = choose|i: int| 0 <= i < addr.len() && addr[i] == '/';
            assert(is_hex_digit(addr[i]) || addr[i] == ':');
        }
    }
    assert(!addr.contains('.')) by {
        if addr.contains('.') {
            let i = choose|i: int| 0 <= i < addr.len() && addr[i] == '.';
            assert(is_hex_digit(addr[i]) || addr[i] == ':');
        }
    }
    assert(!len.contains('/')) by {
        if len.contains('/') {
            let i = choose|i: int| 0 <= i < len.len() && len[i] == '/';
            assert(is_digit(len[i]));
        }
    }
    lemma_fields_one_sep(addr, len, '/');
    lemma_fields_no_sep(addr, '.');
    assert(!is_ipv4(addr));
    assert forall|i: int| 0 <= i < s.len() implies !is_control(#[trigger] s[i]) && !is_shell_meta(s[i]) by {
        if i < addr.len() {
            assert(s[i] == addr[i]);
            assert(is_hex_digit(addr[i]) || addr[i] == ':');
        } else if i > addr.len() {
            assert(s[i] == len[i - addr.len() - 1]);
            assert(is_digit(len[i - addr.len() - 1]));
        }
    }
}

fn hex_digit(c: char) -> (res: bool)
    ensures
        res == is_hex_digit(c),
{
    ('0' <= c && c <= '9') || ('a' <= c && c <= 'f') || ('A' <= c && c <= 'F')
}

fn check_hex_group(f: &Vec<char>) -> (res: bool)
    ensures
        res == is_hex_group(f@),
{
    if f.len() < 1 || f.len() > 4 {
        return false;
    }
    for i in 0..f.len()
        invariant
            forall|j: int| 0 <= j < i ==> is_hex_digit(#[trigger] f@[j]),
    {
        if !hex_digit(f[i]) {
            return false;
        }
    }
    true
}

fn check_octet(f: &Vec<char>) -> (res: bool)
    ensures
        res == is_octet(f@),
{
    if f.len() < 1 || f.len() > 3 {
        return false;
    }
    assert(f@.skip(0) == f@);
    if !check_all_digits(f, 0) {
        return false;
    }
    if f.len() > 1 && f[0] == '0' {
        return false;
    }
    assert(f@.subrange(0, f.len() as int) == f@);
    match parse_digits_at_most(f, 0, f.len(), 255) {
        Some(_) => true,
        None => false,
    }
}

/// Whether `f` is a dotted-quad IPv4 address.
pub fn check_ipv4(f: &Vec<char>) -> (res: bool)
    ensures
        res == is_ipv4(f@),
{
    let parts = split_fields(f, 0, f.len(), '.');
    assert(f@.subrange(0, f.len() as int) == f@);
    if parts.len() != 4 {
        return false;
    }
    for k in 0..4
        invariant
            parts.len() == 4,
            views(parts@) == fields(f@, '.'),
            forall|j: int| 0 <= j < k ==> is_octet(#[trigger] fields(f@, '.')[j]),
    {
        assert(views(parts@)[k as int] == parts@[k as int]@);
        if !check_octet(&parts[k]) {
            return false;
        }
    }
    true
}

proof fn lemma_ipv4_len(f: Seq<char>)
    requires
        is_ipv4(f),
    ensures
        f.len() >= 3,
{
    lemma_fields_len(f, '.');
}

/// The view of an optional count.
pub open spec fn opt_count(r: Option<usize>) -> Option<nat> {
    match r {
        Some(n) => Some(n as nat),
        None => None,
    }
}

/// Counts the groups of `s[lo..hi]` (see `group_count`).
fn count_groups(s: &Vec<char>, lo: usize, hi: usize, allow_v4: bool) -> (res: Option<usize>)
    requires
        lo <= hi <= s.len(),
    ensures
        opt_count(res) == group_count(s@.subrange(lo as int, hi as int), allow_v4),
{
    let ghost t = s@.subrange(lo as int, hi as int);
    if lo == hi {
        return Some(0);
    }
    let fs = split_fields(s, lo, hi, ':');
    proof {
        lemma_fields_len(t, ':');
    }
    let n = fs.len();
    for k in 0..n - 1
        invariant
            n == fs.len(),
            n >= 1,
            t.len() > 0,
            t == s@.subrange(lo as int, hi as int),
            views(fs@) == fields(t, ':'),
            forall|j: int| 0 <= j < k ==> is_hex_group(#[trigger] fields(t, ':')[j]),
    {
        assert(views(fs@)[k as int] == fs@[k as int]@);
        if !check_hex_group(&fs[k]) {
            assert(t.len() > 0);
            assert(!is_hex_group(fields(t, ':')[k as int]));
            assert(!(forall|j: int|
                0 <= j < fields(t, ':').len() - 1 ==> is_hex_group(#[trigger] fields(t, ':')[j])));
            return None;
        }
    }
    assert(views(fs@)[n - 1] == fs@[n - 1]@);
    if check_hex_group(&fs[n - 1]) {
        Some(n)
    } else if allow_v4 && check_ipv4(&fs[n - 1]) {
        proof {
            lemma_ipv4_len(fields(t, ':')[n - 1]);
        }
        Some(n + 1)
    } else {
        None
    }
}

/// Every field of a group list is non-empty.
proof fn lemma_groups_nonempty(t: Seq<char>, allow_v4: bool)
    requires
        group_count(t, allow_v4).is_some(),
        t.len() > 0,
    ensures
        forall|k: int|
            0 <= k < fields(t, ':').len() ==> (#[trigger] fields(t, ':')[k]).len() > 0,
{
    let fs = fields(t, ':');
    lemma_fields_len(t, ':');
    let n = fs.len();
    if !is_hex_group(fs[n - 1]) {
        lemma_ipv4_len(fs[n - 1]);
    }
    assert forall|k: int| 0 <= k < n implies (#[trigger] fs[k]).len() > 0 by {
        if k < n - 1 {
            assert(is_hex_group(fs[k]));
        }
    }
}

/// A group list neither starts nor ends with a colon and holds no `::`.
proof fn lemma_groups_no_double_colon(t: Seq<char>, allow_v4: bool)
    requires
        group_count(t, allow_v4).is_some(),
        t.len() > 0,
    ensures
        t[0] != ':',
        t.last() != ':',
        forall|j: int| 0 <= j && j + 1 < t.len() ==> !(t[j] == ':' && #[trigger] t[j + 1] == ':'),
{
    lemma_groups_nonempty(t, allow_v4);
    lemma_fields_len(t, ':');
    if t[0] == ':' {
        lemma_fields_sep_first(t, ':');
    }
    if t.last() == ':' {
        assert(fields(t, ':') == fields(t.drop_last(), ':').push(Seq::<char>::empty()));
        assert(fields(t, ':').last().len() == 0);
    }
    assert forall|j: int| 0 <= j && j + 1 < t.len() implies !(t[j] == ':' && #[trigger] t[j + 1]
        == ':') by {
        if t[j] == ':' && t[j + 1] == ':' {
            lemma_fields_sep_pair(t, ':', j);
        }
    }
}

/// Whether `s` is an IPv6 address in text form.
pub fn check_ipv6(s: &Vec<char>) -> (res: bool)
    ensures
        res == is_ipv6(s@),
{
    let n = s.len();
    let mut i: usize = 0;
    let mut found = false;
    let last: usize = if n == 0 { 0 } else { n - 1 };
    while i < last
        invariant
            n == s.len(),
            last == (if n == 0 { 0 } else { n - 1 }),
            !found ==> forall|j: int| 0 <= j < i ==> !(s@[j] == ':' && #[trigger] s@[j + 1] == ':'),
            found ==> i + 1 < n && s@[i as int] == ':' && s@[i + 1] == ':',
            found ==> forall|j: int| 0 <= j < i ==> !(s@[j] == ':' && #[trigger] s@[j + 1] == ':'),
        ensures
            !found ==> i >= last,
            !found ==> forall|j: int| 0 <= j < i ==> !(s@[j] == ':' && #[trigger] s@[j + 1] == ':'),
            found ==> i + 1 < n && s@[i as int] == ':' && s@[i + 1] == ':',
            found ==> forall|j: int| 0 <= j < i ==> !(s@[j] == ':' && #[trigger] s@[j + 1] == ':'),
        decreases last - i,
    {
        if s[i] == ':' && s[i + 1] == ':' {
            found = true;
            break;
        }
        i = i + 1;
    }
    if !found {
        assert(s@.subrange(0, n as int) == s@);
        let full = count_groups(s, 0, n, true);
        assert forall|j: int| !compressed_at(s@, j) by {
            if 0 <= j && j + 1 < n && s@[j] == ':' && s@[j + 1] == ':' {
                assert(!(s@[j] == ':' && s@[j + 1] == ':'));
            }
        }
        return full == Some(8usize);
    }
    // `::` at `i`, its first occurrence: the full form is impossible, and any
    // compression point is this one.
    proof {
        if group_count(s@, true).is_some() {
            lemma_groups_no_double_colon(s@, true);
            assert(!(s@[i as int] == ':' && s@[i + 1] == ':'));
        }
    }
    assert(s@.subrange(0, i as int) == s@.take(i as int));
    assert(s@.subrange(i + 2, n as int) == s@.skip(i + 2));
    let head = count_groups(s, 0, i, false);
    let tail = count_groups(s, i + 2, n, true);
    let ok = match (head, tail) {
        (Some(h), Some(t)) => h <= 7 && t <= 7 - h,
        _ => false,
    };
    proof {
        assert(ok == compressed_at(s@, i as int));
        assert forall|j: int| #[trigger] compressed_at(s@, j) implies j == i by {
            let hd = s@.take(j);
            if j > i {
                assert(hd.len() > 0);
                lemma_groups_no_double_colon(hd, false);
                if j == i + 1 {
                    assert(hd.last() == s@[i as int]);
                } else {
                    assert(hd[i as int] == ':' && hd[i + 1] == ':');
                }
            }
            if j < i {
                assert(!(s@[j] == ':' && s@[j + 1] == ':'));
            }
        }
    }
    ok
}

fn control_char(c: char) -> (res: bool)
    ensures
        res == is_control(c),
{
    c <= '\u{1f}' || ('\u{7f}' <= c && c <= '\u{9f}')
}

fn shell_meta(c: char) -> (res: bool)
    ensures
        res == is_shell_meta(c),
{
    c == ';' || c == '|' || c == '&' || c == '`' || c == '$' || c == '>' || c == '<' || c == '!'
        || c == '\\' || c == '\'' || c == '"' || c == '(' || c == ')' || c == '*' || c == '?'
        || c == '[' || c == ']' || c == '#' || c == '~'
}

/// The view of an optional number.
pub open spec fn opt_u64(r: Option<u64>) -> Option<nat> {
    match r {
        Some(n) => Some(n as nat),
        None => None,
    }
}

/// Parses a prefix length: plain decimal digits with a value of at most 255.
pub fn parse_prefix_length(f: &Vec<char>) -> (res: Option<u64>)
    ensures
        opt_u64(res) == parse_prefix_len(f@),
{
    if f.len() < 1 {
        return None;
    }
    assert(f@.skip(0) == f@);
    if !check_all_digits(f, 0) {
        return None;
    }
    assert(f@.subrange(0, f.len() as int) == f@);
    parse_digits_at_most(f, 0, f.len(), 255)
}

/// Validates that a string is a well-formed CIDR prefix (IPv4 or IPv6).
/// Rejects any input containing control characters or shell metacharacters to
/// prevent command injection via Telnet queries.
pub fn validate_cidr_prefix(prefix: &str) -> (res: bool)
    ensures
        res == valid_cidr_prefix(prefix@),
{
    let s = chars_of(prefix);
    for i in 0..s.len()
        invariant
            s@ == prefix@,
            forall|j: int| 0 <= j < i ==> !is_control(#[trigger] s@[j]) && !is_shell_meta(s@[j]),
    {
        if control_char(s[i]) || shell_meta(s[i]) {
            return false;
        }
    }
    let parts = split_fields(&s, 0, s.len(), '/');
    assert(s@.subrange(0, s.len() as int) == s@);
    if parts.len() != 2 {
        return false;
    }
    assert(views(parts@)[0] == parts@[0]@);
    assert(views(parts@)[1] == parts@[1]@);
    let n = match parse_prefix_length(&parts[1]) {
        Some(n) => n,
        None => return false,
    };
    if check_ipv4(&parts[0]) {
        return n <= 32;
    }
    if check_ipv6(&parts[0]) {
        return n <= 128;
    }
    false
}

} // verus!
