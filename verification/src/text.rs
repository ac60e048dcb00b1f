use vstd::prelude::*;
use vstd::utf8::{decode_utf8, valid_utf8};

verus! {

/// ASCII decimal digit.
pub open spec fn is_digit(c: char) -> bool {
    '0' <= c && c <= '9'
}

/// Value of an ASCII decimal digit.
pub open spec fn digit_value(c: char) -> nat {
    ((c as u32) - ('0' as u32)) as nat
}

/// Copies the characters of a string into a vector.
pub fn chars_of(s: &str) -> (res: Vec<char>)
    ensures
        res@ == s@,
{
    let mut res: Vec<char> = Vec::new();
    for c in it: s.chars()
        invariant
            it.seq() == s@,
            res@ == it.seq().take(it.index() as int),
    {
        res.push(c);
    }
    res
}

/// The value of an ASCII decimal digit.
pub fn digit_of(c: char) -> (d: u32)
    requires
        is_digit(c),
    ensures
        d == digit_value(c),
        d < 10,
{
    (c as u32) - ('0' as u32)
}

/// The ASCII character of a decimal digit.
pub open spec fn digit_char(d: nat) -> char {
    ((d + 48) as u32) as char
}

/// The ASCII character of a decimal digit.
pub fn char_of_digit(d: u32) -> (c: char)
    requires
        d < 10,
    ensures
        is_digit(c),
        digit_value(c) == d,
        c == digit_char(d as nat),
{
    ((d as u8) + 48u8) as char
}

/// Whether two character vectors hold the same characters.
pub fn chars_eq(a: &Vec<char>, b: &Vec<char>) -> (res: bool)
    ensures
        res == (a@ == b@),
{
    if a.len() != b.len() {
        return false;
    }
    let n = a.len();
    let mut i: usize = 0;
    while i < n
        invariant
            n == a.len(),
            n == b.len(),
            i <= n,
            a@.take(i as int) == b@.take(i as int),
        decreases n - i,
    {
        if a[i] != b[i] {
            assert(a@[i as int] != b@[i as int]);
            return false;
        }
        assert(a@.take(i + 1) == a@.take(i as int).push(a@[i as int]));
        assert(b@.take(i + 1) == b@.take(i as int).push(b@[i as int]));
        i = i + 1;
    }
    assert(a@ == a@.take(n as int));
    assert(b@ == b@.take(n as int));
    true
}

/// Whether two string slices hold the same characters.
pub fn str_eq(a: &str, b: &str) -> (res: bool)
    ensures
        res == (a@ == b@),
{
    let x = chars_of(a);
    let y = chars_of(b);
    chars_eq(&x, &y)
}

/// The views of a sequence of character vectors.
pub open spec fn views(v: Seq<Vec<char>>) -> Seq<Seq<char>> {
    v.map_values(|x: Vec<char>| x@)
}

/// The fields of `s` between occurrences of `sep`, as `str::split` yields them:
/// `k` separators give `k + 1` fields, some of which may be empty.
pub open spec fn fields(s: Seq<char>, sep: char) -> Seq<Seq<char>>
    decreases s.len(),
{
    if s.len() == 0 {
        seq![Seq::<char>::empty()]
    } else {
        let prev = fields(s.drop_last(), sep);
        if s.last() == sep {
            prev.push(Seq::<char>::empty())
        } else {
            prev.update(prev.len() - 1, prev.last().push(s.last()))
        }
    }
}

/// There is always at least one field, and the fields with their separators fit in `s`.
pub proof fn lemma_fields_len(s: Seq<char>, sep: char)
    ensures
        fields(s, sep).len() >= 1,
        fields(s, sep).len() + fields(s, sep).last().len() <= s.len() + 1,
    decreases s.len(),
{
    if s.len() > 0 {
        lemma_fields_len(s.drop_last(), sep);
    }
}

/// The fields of a prefix of `s` agree with the fields of `s`, except that the last
/// one may still grow.
pub proof fn lemma_fields_prefix(s: Seq<char>, sep: char, j: int)
    requires
        0 <= j <= s.len(),
    ensures
        fields(s.take(j), sep).len() <= fields(s, sep).len(),
        forall|k: int|
            0 <= k < fields(s.take(j), sep).len() - 1 ==> #[trigger] fields(s.take(j), sep)[k]
                == fields(s, sep)[k],
        fields(s.take(j), sep).last().len() <= fields(s, sep)[fields(s.take(j), sep).len()
            - 1].len(),
        fields(s, sep)[fields(s.take(j), sep).len() - 1].take(
            fields(s.take(j), sep).last().len() as int,
        ) == fields(s.take(j), sep).last(),
    decreases s.len(),
{
    lemma_fields_len(s, sep);
    lemma_fields_len(s.take(j), sep);
    if j == s.len() {
        assert(s.take(j) == s);
    } else {
        let t = s.drop_last();
        assert(t.take(j) == s.take(j));
        lemma_fields_prefix(t, sep, j);
        lemma_fields_len(t, sep);
    }
}

/// A separator at the start of `s` makes the first field empty.
pub proof fn lemma_fields_sep_first(s: Seq<char>, sep: char)
    requires
        s.len() >= 1,
        s[0] == sep,
    ensures
        fields(s, sep)[0].len() == 0,
{
    lemma_fields_prefix(s, sep, 1);
    let t = s.take(1);
    assert(t.drop_last() == Seq::<char>::empty());
    assert(t.last() == sep);
    assert(fields(t.drop_last(), sep) == seq![Seq::<char>::empty()]);
    assert(fields(t, sep) == seq![Seq::<char>::empty(), Seq::<char>::empty()]);
}

/// Two adjacent separators make an empty field.
pub proof fn lemma_fields_sep_pair(s: Seq<char>, sep: char, i: int)
    requires
        0 <= i,
        i + 1 < s.len(),
        s[i] == sep,
        s[i + 1] == sep,
    ensures
        exists|k: int| 0 <= k < fields(s, sep).len() && (#[trigger] fields(s, sep)[k]).len() == 0,
{
    let t = s.take(i + 2);
    lemma_fields_prefix(s, sep, i + 2);
    assert(t.drop_last() == s.take(i + 1));
    assert(s.take(i + 1).drop_last() == s.take(i));
    lemma_fields_len(s.take(i), sep);
    assert(t.last() == sep);
    assert(s.take(i + 1).last() == sep);
    let m = fields(s.take(i + 1), sep);
    assert(m == fields(s.take(i), sep).push(Seq::<char>::empty()));
    let a = fields(t, sep);
    assert(a == m.push(Seq::<char>::empty()));
    let k = a.len() - 2;
    assert(a[k].len() == 0);
    assert(fields(s, sep)[k].len() == 0);
}

/// Splits `s[lo..hi]` into the fields between occurrences of `sep`.
pub fn split_fields(s: &Vec<char>, lo: usize, hi: usize, sep: char) -> (res: Vec<Vec<char>>)
    requires
        lo <= hi <= s.len(),
    ensures
        views(res@) == fields(s@.subrange(lo as int, hi as int), sep),
{
    let ghost t = s@.subrange(lo as int, hi as int);
    let mut done: Vec<Vec<char>> = Vec::new();
    let mut cur: Vec<char> = Vec::new();
    let mut i: usize = lo;
    assert(t.take(0) == Seq::<char>::empty());
    while i < hi
        invariant
            lo <= i <= hi <= s.len(),
            t == s@.subrange(lo as int, hi as int),
            fields(t.take(i - lo), sep) == views(done@).push(cur@),
        decreases hi - i,
    {
        let c = s[i];
        proof {
            assert(t.take(i - lo + 1).drop_last() == t.take(i - lo));
            assert(t.take(i - lo + 1).last() == c);
            lemma_fields_len(t.take(i - lo), sep);
        }
        if c == sep {
            let ghost old_done = done@;
            done.push(cur);
            cur = Vec::new();
            assert(views(done@) == views(old_done).push(views(done@).last()));
        } else {
            cur.push(c);
        }
        i = i + 1;
    }
    assert(t.take(hi - lo) == t);
    let ghost old_done = done@;
    done.push(cur);
    assert(views(done@) == views(old_done).push(views(done@).last()));
    done
}

/// Every character of `s` is an ASCII digit.
pub open spec fn all_digits(s: Seq<char>) -> bool {
    forall|i: int| 0 <= i < s.len() ==> is_digit(#[trigger] s[i])
}

/// The number that a string of decimal digits denotes (leading zeros allowed).
pub open spec fn digits_value(s: Seq<char>) -> nat
    decreases s.len(),
{
    if s.len() == 0 {
        0
    } else {
        digits_value(s.drop_last()) * 10 + digit_value(s.last())
    }
}

/// Appending digits never makes the value smaller.
pub proof fn lemma_digits_value_prefix(s: Seq<char>, j: int)
    requires
        0 <= j <= s.len(),
    ensures
        digits_value(s.take(j)) <= digits_value(s),
    decreases s.len(),
{
    if j < s.len() {
        assert(s.drop_last().take(j) == s.take(j));
        lemma_digits_value_prefix(s.drop_last(), j);
    } else {
        assert(s.take(j) == s);
    }
}

/// The value of the digits `s[lo..hi]` if it is at most `max`.
pub fn parse_digits_at_most(s: &Vec<char>, lo: usize, hi: usize, max: u64) -> (res: Option<u64>)
    requires
        lo <= hi <= s.len(),
        all_digits(s@.subrange(lo as int, hi as int)),
        max <= u32::MAX,
    ensures
        match res {
            Some(v) => v == digits_value(s@.subrange(lo as int, hi as int)) && v <= max,
            None => digits_value(s@.subrange(lo as int, hi as int)) > max,
        },
{
    let ghost t = s@.subrange(lo as int, hi as int);
    let mut v: u64 = 0;
    let mut i: usize = lo;
    assert(t.take(0) == Seq::<char>::empty());
    while i < hi
        invariant
            lo <= i <= hi <= s.len(),
            t == s@.subrange(lo as int, hi as int),
            all_digits(t),
            v == digits_value(t.take(i - lo)),
            v <= max,
            max <= u32::MAX,
        decreases hi - i,
    {
        assert(is_digit(t[i - lo]));
        let d = digit_of(s[i]);
        proof {
            assert(t.take(i - lo + 1).drop_last() == t.take(i - lo));
            assert(t.take(i - lo + 1).last() == s@[i as int]);
        }
        let nv = v * 10 + d as u64;
        if nv > max {
            proof {
                lemma_digits_value_prefix(t, i - lo + 1);
            }
            return None;
        }
        v = nv;
        i = i + 1;
    }
    assert(t.take(hi - lo) == t);
    Some(v)
}

/// Whether every character of `f[lo..]` is an ASCII digit.
pub fn check_all_digits(f: &Vec<char>, lo: usize) -> (res: bool)
    requires
        lo <= f.len(),
    ensures
        res == all_digits(f@.skip(lo as int)),
{
    let ghost t = f@.skip(lo as int);
    let mut i: usize = lo;
    while i < f.len()
        invariant
            lo <= i <= f.len(),
            t == f@.skip(lo as int),
            forall|j: int| 0 <= j < i - lo ==> is_digit(#[trigger] t[j]),
        decreases f.len() - i,
    {
        if !('0' <= f[i] && f[i] <= '9') {
            assert(!is_digit(t[i - lo]));
            return false;
        }
        i = i + 1;
    }
    true
}

/// Unicode White_Space, as `char::is_whitespace` tests it.
pub open spec fn is_whitespace(c: char) -> bool {
    ('\u{9}' <= c && c <= '\u{d}') || c == ' ' || c == '\u{85}' || c == '\u{a0}' || c
        == '\u{1680}' || ('\u{2000}' <= c && c <= '\u{200a}') || c == '\u{2028}' || c
        == '\u{2029}' || c == '\u{202f}' || c == '\u{205f}' || c == '\u{3000}'
}

/// Whether a character is whitespace (Unicode White_Space).
pub fn whitespace(c: char) -> (res: bool)
    ensures
        res == is_whitespace(c),
{
    ('\u{9}' <= c && c <= '\u{d}') || c == ' ' || c == '\u{85}' || c == '\u{a0}' || c
        == '\u{1680}' || ('\u{2000}' <= c && c <= '\u{200a}') || c == '\u{2028}' || c
        == '\u{2029}' || c == '\u{202f}' || c == '\u{205f}' || c == '\u{3000}'
}

/// The words of `s`: its maximal runs of non-whitespace characters, in order, as
/// `str::split_whitespace` yields them.
pub open spec fn words(s: Seq<char>) -> Seq<Seq<char>>
    decreases s.len(),
{
    if s.len() == 0 {
        Seq::<Seq<char>>::empty()
    } else {
        let prev = words(s.drop_last());
        let c = s.last();
        if is_whitespace(c) {
            prev
        } else if s.len() >= 2 && !is_whitespace(s[s.len() - 2]) {
            prev.update(prev.len() - 1, prev.last().push(c))
        } else {
            prev.push(seq![c])
        }
    }
}

/// Splits `s` into its words.
pub fn split_words(s: &Vec<char>) -> (res: Vec<Vec<char>>)
    ensures
        views(res@) == words(s@),
{
    let mut done: Vec<Vec<char>> = Vec::new();
    let mut cur: Vec<char> = Vec::new();
    let n = s.len();
    assert(s@.take(0) == Seq::<char>::empty());
    for i in 0..n
        invariant
            n == s.len(),
            words(s@.take(i as int)) == (if cur@.len() > 0 {
                views(done@).push(cur@)
            } else {
                views(done@)
            }),
            cur@.len() > 0 <==> (i > 0 && !is_whitespace(s@[i - 1])),
    {
        let c = s[i];
        let ghost t = s@.take(i + 1);
        proof {
            assert(t.drop_last() == s@.take(i as int));
            assert(t.last() == c);
            if i > 0 {
                assert(t[t.len() - 2] == s@[i - 1]);
            }
        }
        if whitespace(c) {
            if cur.len() > 0 {
                let ghost old_done = done@;
                done.push(cur);
                cur = Vec::new();
                assert(views(done@) == views(old_done).push(views(done@).last()));
            }
        } else {
            if cur.len() > 0 {
                let ghost prev = views(done@).push(cur@);
                cur.push(c);
                assert(prev.update(prev.len() - 1, prev.last().push(c)) == views(done@).push(cur@));
            } else {
                cur.push(c);
                assert(cur@ == seq![c]);
            }
        }
    }
    assert(s@.take(n as int) == s@);
    if cur.len() > 0 {
        let ghost old_done = done@;
        done.push(cur);
        assert(views(done@) == views(old_done).push(views(done@).last()));
    }
    done
}

/// `needle` occurs in `hay` at position `i`.
pub open spec fn occurs_at(hay: Seq<char>, needle: Seq<char>, i: int) -> bool {
    0 <= i && i + needle.len() <= hay.len() && hay.subrange(i, i + needle.len()) == needle
}

/// `needle` occurs somewhere in `hay`, as `str::contains` tests it.
pub open spec fn has_substring(hay: Seq<char>, needle: Seq<char>) -> bool {
    exists|i: int| #[trigger] occurs_at(hay, needle, i)
}

fn matches_at(hay: &Vec<char>, needle: &Vec<char>, i: usize) -> (res: bool)
    requires
        i + needle.len() <= hay.len(),
    ensures
        res == occurs_at(hay@, needle@, i as int),
{
    let m = needle.len();
    for k in 0..m
        invariant
            m == needle.len(),
            i + m <= hay.len(),
            hay@.subrange(i as int, i + k) == needle@.take(k as int),
    {
        if hay[i + k] != needle[k] {
            assert(hay@.subrange(i as int, i + m)[k as int] != needle@[k as int]);
            return false;
        }
        assert(hay@.subrange(i as int, i + k + 1) == hay@.subrange(i as int, i + k).push(hay@[i + k]));
        assert(needle@.take(k + 1) == needle@.take(k as int).push(needle@[k as int]));
    }
    assert(needle@.take(m as int) == needle@);
    true
}

/// Whether `needle` occurs in `hay`.
pub fn contains_chars(hay: &Vec<char>, needle: &Vec<char>) -> (res: bool)
    ensures
        res == has_substring(hay@, needle@),
{
    if needle.len() > hay.len() {
        assert forall|i: int| !occurs_at(hay@, needle@, i) by {}
        return false;
    }
    if needle.len() == 0 {
        assert(hay@.subrange(0, 0) == needle@);
        assert(occurs_at(hay@, needle@, 0));
        return true;
    }
    let last = hay.len() - needle.len();
    for i in 0..last + 1
        invariant
            last == hay.len() - needle.len(),
            needle.len() <= hay.len(),
            forall|j: int| 0 <= j < i ==> !#[trigger] occurs_at(hay@, needle@, j),
    {
        if matches_at(hay, needle, i) {
            return true;
        }
    }
    assert forall|i: int| !#[trigger] occurs_at(hay@, needle@, i) by {
        if 0 <= i <= last {
        }
    }
    false
}

/// The decimal representation of `n`, without leading zeros.
pub open spec fn decimal(n: nat) -> Seq<char>
    decreases n,
{
    if n < 10 {
        seq![digit_char(n)]
    } else {
        decimal(n / 10).push(digit_char(n % 10))
    }
}

/// The decimal representation of `n`, as `u32::to_string` writes it.
pub fn decimal_chars(n: u32) -> (res: Vec<char>)
    ensures
        res@ == decimal(n as nat),
    decreases n,
{
    if n < 10 {
        let mut v = Vec::new();
        v.push(char_of_digit(n));
        assert(v@ == seq![digit_char(n as nat)]);
        v
    } else {
        let mut v = decimal_chars(n / 10);
        v.push(char_of_digit(n % 10));
        v
    }
}

/// Appends a character to a string (`String::push`).
#[verifier::external_body]
pub(crate) fn string_push(s: &mut String, c: char)
    ensures
        final(s)@ == old(s)@.push(c),
{
    s.push(c);
}

/// The lowercase form of a text under the Unicode case mapping that
/// `str::to_lowercase` applies.
pub uninterp spec fn lowercase(s: Seq<char>) -> Seq<char>;

/// `str::to_lowercase`: its result is the text's Unicode lowercase mapping, which
/// depends on the text alone; the mapping itself is left unstated here.
#[verifier::external_body]
pub(crate) fn to_lowercase(s: &str) -> (res: String)
    ensures
        res@ == lowercase(s@),
{
    s.to_lowercase()
}

/// The text that `String::from_utf8_lossy` makes of a byte sequence.
pub uninterp spec fn utf8_lossy(b: Seq<u8>) -> Seq<char>;

/// `String::from_utf8_lossy`: its result depends on the bytes alone, and for valid
/// UTF-8 it is the decoded text; how invalid sequences are replaced by U+FFFD is
/// left unstated here.
#[verifier::external_body]
pub(crate) fn lossy_text(b: &[u8]) -> (res: String)
    ensures
        res@ == utf8_lossy(b@),
        valid_utf8(b@) ==> res@ == decode_utf8(b@),
{
    String::from_utf8_lossy(b).into_owned()
}

/// Builds a string from characters.
pub fn string_from_chars(v: &Vec<char>) -> (res: String)
    ensures
        res@ == v@,
{
    let mut res = String::new();
    for i in 0..v.len()
        invariant
            res@ == v@.take(i as int),
    {
        string_push(&mut res, v[i]);
        assert(v@.take(i + 1) == v@.take(i as int).push(v@[i as int]));
    }
    assert(v@.take(v.len() as int) == v@);
    res
}

/// Appends all characters of `src` to `out`.
pub fn push_all(out: &mut Vec<char>, src: &Vec<char>)
    ensures
        final(out)@ == old(out)@ + src@,
{
    let ghost start = out@;
    for i in 0..src.len()
        invariant
            out@ == start + src@.take(i as int),
    {
        out.push(src[i]);
        assert(src@.take(i + 1) == src@.take(i as int).push(src@[i as int]));
    }
    assert(src@.take(src.len() as int) == src@);
}

/// Copies `s[lo..hi]`.
pub fn copy_range(s: &Vec<char>, lo: usize, hi: usize) -> (res: Vec<char>)
    requires
        lo <= hi <= s.len(),
    ensures
        res@ == s@.subrange(lo as int, hi as int),
{
    let mut res: Vec<char> = Vec::new();
    let mut i = lo;
    while i < hi
        invariant
            lo <= i <= hi <= s.len(),
            res@ == s@.subrange(lo as int, i as int),
        decreases hi - i,
    {
        res.push(s[i]);
        assert(s@.subrange(lo as int, i + 1) == s@.subrange(lo as int, i as int).push(s@[i as int]));
        i = i + 1;
    }
    res
}

/// `s` without its leading whitespace.
pub open spec fn trim_start(s: Seq<char>) -> Seq<char>
    decreases s.len(),
{
    if s.len() > 0 && is_whitespace(s[0]) {
        trim_start(s.drop_first())
    } else {
        s
    }
}

/// `s` without its trailing whitespace, as `str::trim_end` leaves it.
pub open spec fn trim_end(s: Seq<char>) -> Seq<char>
    decreases s.len(),
{
    if s.len() > 0 && is_whitespace(s.last()) {
        trim_end(s.drop_last())
    } else {
        s
    }
}

/// `s` without leading and trailing whitespace, as `str::trim` leaves it.
pub open spec fn trim(s: Seq<char>) -> Seq<char> {
    trim_end(trim_start(s))
}

/// The characters of `s` without trailing whitespace.
pub fn trim_end_chars(s: &Vec<char>) -> (res: Vec<char>)
    ensures
        res@ == trim_end(s@),
{
    let mut hi = s.len();
    assert(s@.take(hi as int) == s@);
    while hi > 0 && whitespace(s[hi - 1])
        invariant
            hi <= s.len(),
            trim_end(s@) == trim_end(s@.take(hi as int)),
        decreases hi,
    {
        assert(s@.take(hi as int).drop_last() == s@.take(hi - 1));
        hi = hi - 1;
    }
    assert(s@.subrange(0, hi as int) == s@.take(hi as int));
    copy_range(s, 0, hi)
}

/// The characters of `s` without leading and trailing whitespace.
pub fn trim_chars(s: &Vec<char>) -> (res: Vec<char>)
    ensures
        res@ == trim(s@),
{
    let mut lo: usize = 0;
    assert(s@.skip(0) == s@);
    while lo < s.len() && whitespace(s[lo as usize])
        invariant
            lo <= s.len(),
            trim_start(s@) == trim_start(s@.skip(lo as int)),
        decreases s.len() - lo,
    {
        assert(s@.skip(lo as int).drop_first() == s@.skip(lo + 1));
        lo = lo + 1;
    }
    assert(s@.subrange(lo as int, s.len() as int) == s@.skip(lo as int));
    let t = copy_range(s, lo, s.len());
    trim_end_chars(&t)
}

/// `s` ends with `suffix`.
pub open spec fn ends_with(s: Seq<char>, suffix: Seq<char>) -> bool {
    suffix.len() <= s.len() && s.skip(s.len() - suffix.len()) == suffix
}

/// Whether `s` ends with `suffix`.
pub fn ends_with_chars(s: &Vec<char>, suffix: &Vec<char>) -> (res: bool)
    ensures
        res == ends_with(s@, suffix@),
{
    if suffix.len() > s.len() {
        return false;
    }
    let i = s.len() - suffix.len();
    assert(s@.skip(i as int) == s@.subrange(i as int, i + suffix.len()));
    matches_at(s, suffix, i)
}

/// `s` with every occurrence of the non-empty `pat` replaced by `rep`, scanning from
/// the left without overlap, as `str::replace` does.
pub open spec fn replace_all(s: Seq<char>, pat: Seq<char>, rep: Seq<char>) -> Seq<char>
    decreases s.len(),
{
    if pat.len() == 0 || s.len() < pat.len() {
        s
    } else if s.take(pat.len() as int) == pat {
        rep + replace_all(s.skip(pat.len() as int), pat, rep)
    } else {
        seq![s[0]] + replace_all(s.drop_first(), pat, rep)
    }
}

/// Every character of a replacement result comes from the text or the replacement, so
/// a property that all of those have, the result has too.
pub proof fn lemma_replace_all_keeps(s: Seq<char>, pat: Seq<char>, rep: Seq<char>, p: spec_fn(char) -> bool)
    requires
        forall|i: int| 0 <= i < s.len() ==> p(#[trigger] s[i]),
        forall|i: int| 0 <= i < rep.len() ==> p(#[trigger] rep[i]),
    ensures
        forall|i: int| 0 <= i < replace_all(s, pat, rep).len() ==> p(#[trigger] replace_all(s, pat, rep)[i]),
    decreases s.len(),
{
    if pat.len() == 0 || s.len() < pat.len() {
    } else if s.take(pat.len() as int) == pat {
        let tail = s.skip(pat.len() as int);
        assert forall|i: int| 0 <= i < tail.len() implies p(#[trigger] tail[i]) by {
            assert(tail[i] == s[i + pat.len()]);
        }
        lemma_replace_all_keeps(tail, pat, rep, p);
        let r = replace_all(tail, pat, rep);
        assert(replace_all(s, pat, rep) == rep + r);
        assert forall|i: int| 0 <= i < (rep + r).len() implies p(#[trigger] (rep + r)[i]) by {
            if i >= rep.len() {
                assert((rep + r)[i] == r[i - rep.len()]);
            } else {
                assert((rep + r)[i] == rep[i]);
            }
        }
    } else {
        let tail = s.drop_first();
        assert forall|i: int| 0 <= i < tail.len() implies p(#[trigger] tail[i]) by {
            assert(tail[i] == s[i + 1]);
        }
        lemma_replace_all_keeps(tail, pat, rep, p);
        let r = replace_all(tail, pat, rep);
        assert(replace_all(s, pat, rep) == seq![s[0]] + r);
        assert forall|i: int| 0 <= i < (seq![s[0]] + r).len() implies p(#[trigger] (seq![s[0]] + r)[i]) by {
            if i >= 1 {
                assert((seq![s[0]] + r)[i] == r[i - 1]);
            }
        }
    }
}

/// Replaces every occurrence of `pat` in `s` by `rep`.
pub fn replace_chars(s: &Vec<char>, pat: &Vec<char>, rep: &Vec<char>) -> (res: Vec<char>)
    requires
        pat.len() > 0,
    ensures
        res@ == replace_all(s@, pat@, rep@),
{
    let n = s.len();
    let m = pat.len();
    let mut out: Vec<char> = Vec::new();
    let mut i: usize = 0;
    assert(s@.skip(0) == s@);
    while i < n
        invariant
            n == s.len(),
            m == pat.len(),
            m > 0,
            i <= n,
            replace_all(s@, pat@, rep@) == out@ + replace_all(s@.skip(i as int), pat@, rep@),
        decreases n - i,
    {
        let ghost rest = s@.skip(i as int);
        if n - i >= m && matches_at(s, pat, i) {
            assert(rest.take(m as int) == s@.subrange(i as int, i + m));
            assert(rest.skip(m as int) == s@.skip(i + m));
            let ghost before = out@;
            push_all(&mut out, rep);
            assert(before + (rep@ + replace_all(s@.skip(i + m), pat@, rep@)) == out@ + replace_all(
                s@.skip(i + m),
                pat@,
                rep@,
            ));
            i = i + m;
        } else {
            assert(rest.drop_first() == s@.skip(i + 1));
            if n - i >= m {
                assert(rest.take(m as int) == s@.subrange(i as int, i + m));
            } else {
                assert(replace_all(rest, pat@, rep@) == rest);
                assert(replace_all(rest.drop_first(), pat@, rep@) == rest.drop_first());
                assert(rest == seq![rest[0]] + rest.drop_first());
            }
            let ghost before = out@;
            out.push(s[i]);
            assert(before + (seq![s@[i as int]] + replace_all(s@.skip(i + 1), pat@, rep@)) == out@
                + replace_all(s@.skip(i + 1), pat@, rep@));
            i = i + 1;
        }
    }
    assert(s@.skip(n as int) == Seq::<char>::empty());
    assert(out@ + Seq::<char>::empty() == out@);
    out
}

} // verus!
