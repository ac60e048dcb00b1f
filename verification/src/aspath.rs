use vstd::prelude::*;

use crate::text::{
    all_digits, chars_of, check_all_digits, contains_chars, decimal, decimal_chars, digits_value,
    fields, has_substring, is_digit, parse_digits_at_most, split_fields, split_words, views, words,
};

verus! {

/// Lexicographic order on AS paths, as `Vec<u32>` orders them: a proper prefix comes
/// first, otherwise the first differing ASN decides.
pub open spec fn lex_lt(a: Seq<u32>, b: Seq<u32>) -> bool
    decreases a.len(),
{
    if a.len() == 0 {
        b.len() > 0
    } else if b.len() == 0 {
        false
    } else if a[0] < b[0] {
        true
    } else if a[0] > b[0] {
        false
    } else {
        lex_lt(a.drop_first(), b.drop_first())
    }
}

/// No path comes before itself.
pub proof fn lemma_lex_irreflexive(a: Seq<u32>)
    ensures
        !lex_lt(a, a),
    decreases a.len(),
{
    if a.len() > 0 {
        lemma_lex_irreflexive(a.drop_first());
    }
}

/// The order is transitive.
pub proof fn lemma_lex_transitive(a: Seq<u32>, b: Seq<u32>, c: Seq<u32>)
    requires
        lex_lt(a, b),
        lex_lt(b, c),
    ensures
        lex_lt(a, c),
    decreases a.len(),
{
    if a.len() > 0 && b.len() > 0 && c.len() > 0 && a[0] == b[0] && b[0] == c[0] {
        lemma_lex_transitive(a.drop_first(), b.drop_first(), c.drop_first());
    }
}

/// Two different paths are ordered one way or the other.
pub proof fn lemma_lex_total(a: Seq<u32>, b: Seq<u32>)
    requires
        a != b,
    ensures
        lex_lt(a, b) || lex_lt(b, a),
    decreases a.len(),
{
    if a.len() == 0 {
        if b.len() == 0 {
            assert(a == b);
        }
    } else if b.len() > 0 && a[0] == b[0] {
        if a.drop_first() == b.drop_first() {
            assert(a == seq![a[0]] + a.drop_first());
            assert(b == seq![b[0]] + b.drop_first());
        }
        lemma_lex_total(a.drop_first(), b.drop_first());
    }
}

/// Whether `a` comes strictly before `b`.
pub fn lex_less(a: &Vec<u32>, b: &Vec<u32>) -> (res: bool)
    ensures
        res == lex_lt(a@, b@),
{
    let mut i: usize = 0;
    assert(a@.skip(0) == a@);
    assert(b@.skip(0) == b@);
    loop
        invariant
            i <= a.len(),
            i <= b.len(),
            lex_lt(a@, b@) == lex_lt(a@.skip(i as int), b@.skip(i as int)),
        decreases a.len() - i,
    {
        if i == a.len() {
            return i < b.len();
        }
        if i == b.len() {
            return false;
        }
        if a[i] < b[i] {
            return true;
        }
        if a[i] > b[i] {
            return false;
        }
        assert(a@.skip(i as int).drop_first() == a@.skip(i + 1));
        assert(b@.skip(i as int).drop_first() == b@.skip(i + 1));
        i = i + 1;
    }
}

/// The views of a sequence of paths.
pub open spec fn path_views(v: Seq<Vec<u32>>) -> Seq<Seq<u32>> {
    v.map_values(|p: Vec<u32>| p@)
}

/// Strictly increasing in the lexicographic order: sorted and free of duplicates,
/// as `sort` followed by `dedup` leaves a vector of paths.
pub open spec fn strictly_sorted(s: Seq<Seq<u32>>) -> bool {
    forall|i: int, j: int| 0 <= i < j < s.len() ==> lex_lt(#[trigger] s[i], #[trigger] s[j])
}

/// Adds `p` to a strictly sorted list of paths unless it is already there.
pub fn insert_path(v: &mut Vec<Vec<u32>>, p: Vec<u32>)
    requires
        strictly_sorted(path_views(old(v)@)),
    ensures
        strictly_sorted(path_views(final(v)@)),
        forall|q: Seq<u32>|
            path_views(final(v)@).contains(q) <==> (path_views(old(v)@).contains(q) || q == p@),
{
    let ghost old_views = path_views(v@);
    let n = v.len();
    let mut j: usize = 0;
    while j < n && lex_less(&v[j], &p)
        invariant
            n == v.len(),
            j <= n,
            old_views == path_views(v@),
            strictly_sorted(old_views),
            forall|k: int| 0 <= k < j ==> lex_lt(#[trigger] old_views[k], p@),
        decreases n - j,
    {
        assert(old_views[j as int] == v@[j as int]@);
        j = j + 1;
    }
    if j < n {
        assert(old_views[j as int] == v@[j as int]@);
        if !lex_less(&p, &v[j]) {
            proof {
                if old_views[j as int] != p@ {
                    lemma_lex_total(old_views[j as int], p@);
                }
            }
            assert forall|q: Seq<u32>|
                path_views(v@).contains(q) <==> (old_views.contains(q) || q == p@) by {
                if q == p@ {
                    assert(old_views[j as int] == q);
                }
            }
            return;
        }
    }
    let ghost pv = p@;
    v.insert(j, p);
    let ghost nv = path_views(v@);
    assert(nv == old_views.insert(j as int, pv));
    assert forall|a: int, b: int| 0 <= a < b < nv.len() implies lex_lt(
        #[trigger] nv[a],
        #[trigger] nv[b],
    ) by {
        if b < j {
            assert(nv[a] == old_views[a] && nv[b] == old_views[b]);
        } else if b == j {
            assert(nv[a] == old_views[a]);
        } else if a == j {
            assert(nv[b] == old_views[b - 1]);
            if b - 1 > j {
                lemma_lex_transitive(pv, old_views[j as int], old_views[b - 1]);
            }
        } else if a < j {
            assert(nv[a] == old_views[a] && nv[b] == old_views[b - 1]);
        } else {
            assert(nv[a] == old_views[a - 1] && nv[b] == old_views[b - 1]);
        }
    }
    assert forall|q: Seq<u32>| nv.contains(q) <==> (old_views.contains(q) || q == pv) by {
        if nv.contains(q) {
            let k = choose|k: int| 0 <= k < nv.len() && nv[k] == q;
            if k < j {
                assert(old_views[k] == q);
            } else if k > j {
                assert(old_views[k - 1] == q);
            }
        }
        if old_views.contains(q) {
            let k = choose|k: int| 0 <= k < old_views.len() && old_views[k] == q;
            if k < j {
                assert(nv[k] == q);
            } else {
                assert(nv[k + 1] == q);
            }
        }
        if q == pv {
            assert(nv[j as int] == q);
        }
    }
}

/// Tokens that never hold an ASN: IPv6 addresses and community values (with `:`) and
/// AS-SET notation (`{...}`, or anything with a `,`).
pub open spec fn skipped_token(t: Seq<char>) -> bool {
    t.contains(':') || (t.len() > 0 && (t[0] == '{' || t.last() == '}')) || t.contains(',')
}

/// The ASNs collected from the words of a line, after those already in `acc`: every
/// all-digit word that is a non-zero `u32` joins the path; skipped words, `0` (not an
/// assignable ASN) and all-digit words too large for a `u32` are passed over; the
/// first other word ends the path once it has begun.
pub open spec fn collect_asns(tokens: Seq<Seq<char>>, acc: Seq<u32>) -> Seq<u32>
    decreases tokens.len(),
{
    if tokens.len() == 0 {
        acc
    } else {
        let t = tokens[0];
        let rest = tokens.drop_first();
        if skipped_token(t) {
            collect_asns(rest, acc)
        } else if all_digits(t) {
            if 0 < digits_value(t) <= u32::MAX {
                collect_asns(rest, acc.push(digits_value(t) as u32))
            } else {
                collect_asns(rest, acc)
            }
        } else if acc.len() > 0 {
            acc
        } else {
            collect_asns(rest, acc)
        }
    }
}

/// A `0` word is passed over: taking it out of a line leaves the collected path as it
/// was, wherever it stands, before the path, inside it or after it.
pub proof fn lemma_zero_passed_over(
    before: Seq<Seq<char>>,
    zero: Seq<char>,
    after: Seq<Seq<char>>,
    acc: Seq<u32>,
)
    requires
        all_digits(zero),
        digits_value(zero) == 0,
    ensures
        collect_asns(before + seq![zero] + after, acc) == collect_asns(before + after, acc),
    decreases before.len(),
{
    let with_zero = before + seq![zero] + after;
    assert(!zero.contains(':') && !zero.contains(',')) by {
        if zero.contains(':') {
            let i = choose|i: int| 0 <= i < zero.len() && zero[i] == ':';
            assert(is_digit(zero[i]));
        }
        if zero.contains(',') {
            let i = choose|i: int| 0 <= i < zero.len() && zero[i] == ',';
            assert(is_digit(zero[i]));
        }
    }
    if zero.len() > 0 {
        assert(is_digit(zero[0]) && is_digit(zero.last()));
    }
    if before.len() == 0 {
        assert(with_zero[0] == zero);
        assert(with_zero.drop_first() == after);
        assert(before + after == after);
    } else {
        let rest = before.drop_first();
        assert(with_zero[0] == before[0]);
        assert(with_zero.drop_first() == rest + seq![zero] + after);
        assert((before + after)[0] == before[0]);
        assert((before + after).drop_first() == rest + after);
        let t = before[0];
        if !skipped_token(t) && all_digits(t) && 0 < digits_value(t) <= u32::MAX {
            lemma_zero_passed_over(rest, zero, after, acc.push(digits_value(t) as u32));
        } else {
            lemma_zero_passed_over(rest, zero, after, acc);
        }
    }
}

/// The AS path that one line of router output shows.
pub open spec fn line_path(line: Seq<char>) -> Seq<u32> {
    collect_asns(words(line), Seq::<u32>::empty())
}

/// A line reports an announcement of the target: it mentions the target ASN and its
/// path ends with it.
pub open spec fn reports_path(line: Seq<char>, target: u32) -> bool {
    &&& has_substring(line, decimal(target as nat))
    &&& line_path(line).len() > 0
    &&& line_path(line).last() == target
}

/// `p` is the path of some line of `output` that reports the target.
pub open spec fn extracted_path(output: Seq<char>, target: u32, p: Seq<u32>) -> bool {
    exists|k: int|
        0 <= k < fields(output, '\n').len() && reports_path(#[trigger] fields(output, '\n')[k], target)
            && line_path(fields(output, '\n')[k]) == p
}

/// Collecting never adds ASN 0 and keeps what was already collected in front.
proof fn lemma_collect_asns_nonzero(tokens: Seq<Seq<char>>, acc: Seq<u32>)
    requires
        forall|i: int| 0 <= i < acc.len() ==> acc[i] != 0,
    ensures
        forall|i: int| 0 <= i < collect_asns(tokens, acc).len() ==> #[trigger] collect_asns(tokens, acc)[i] != 0,
    decreases tokens.len(),
{
    if tokens.len() > 0 {
        let t = tokens[0];
        let rest = tokens.drop_first();
        if !skipped_token(t) && all_digits(t) && 0 < digits_value(t) <= u32::MAX {
            let next = acc.push(digits_value(t) as u32);
            assert forall|i: int| 0 <= i < next.len() implies next[i] != 0 by {
                if i < acc.len() {
                    assert(next[i] == acc[i]);
                }
            }
            lemma_collect_asns_nonzero(rest, next);
            assert(collect_asns(tokens, acc) == collect_asns(rest, next));
        } else if skipped_token(t) || all_digits(t) || acc.len() == 0 {
            lemma_collect_asns_nonzero(rest, acc);
            assert(collect_asns(tokens, acc) == collect_asns(rest, acc));
        } else {
            assert(collect_asns(tokens, acc) == acc);
        }
    } else {
        assert(collect_asns(tokens, acc) == acc);
    }
}

/// Every AS path extracted from router output is non-empty, ends with the
/// target ASN and holds no ASN 0.
pub proof fn lemma_extracted_path_shape(output: Seq<char>, target: u32, p: Seq<u32>)
    requires
        extracted_path(output, target, p),
    ensures
        p.len() > 0,
        p.last() == target,
        forall|i: int| 0 <= i < p.len() ==> p[i] != 0,
{
    let k = choose|k: int|
        0 <= k < fields(output, '\n').len() && reports_path(#[trigger] fields(output, '\n')[k], target)
            && line_path(fields(output, '\n')[k]) == p;
    lemma_collect_asns_nonzero(words(fields(output, '\n')[k]), Seq::<u32>::empty());
}

/// Every line that mentions the target ASN and whose collected path is non-empty and
/// ends with the target contributes that path, whatever its length.
pub proof fn lemma_reporting_line_extracted(output: Seq<char>, target: u32, k: int)
    requires
        0 <= k < fields(output, '\n').len(),
        has_substring(fields(output, '\n')[k], decimal(target as nat)),
        line_path(fields(output, '\n')[k]).len() > 0,
        line_path(fields(output, '\n')[k]).last() == target,
    ensures
        extracted_path(output, target, line_path(fields(output, '\n')[k])),
{
    assert(reports_path(fields(output, '\n')[k], target));
}

/// A line whose only word is the target ASN (non-zero) shows the one-ASN path
/// `[target]`, and that path is extracted when the line mentions the target.
pub proof fn lemma_single_asn_line(output: Seq<char>, target: u32, k: int)
    requires
        0 <= k < fields(output, '\n').len(),
        target > 0,
        words(fields(output, '\n')[k]).len() == 1,
        all_digits(words(fields(output, '\n')[k])[0]),
        digits_value(words(fields(output, '\n')[k])[0]) == target,
        has_substring(fields(output, '\n')[k], decimal(target as nat)),
    ensures
        line_path(fields(output, '\n')[k]) == seq![target],
        extracted_path(output, target, seq![target]),
{
    let ws = words(fields(output, '\n')[k]);
    let w = ws[0];
    assert(!w.contains(':') && !w.contains(',')) by {
        if w.contains(':') {
            let i = choose|i: int| 0 <= i < w.len() && w[i] == ':';
            assert(is_digit(w[i]));
        }
        if w.contains(',') {
            let i = choose|i: int| 0 <= i < w.len() && w[i] == ',';
            assert(is_digit(w[i]));
        }
    }
    if w.len() > 0 {
        assert(is_digit(w[0]) && is_digit(w.last()));
    }
    assert(!skipped_token(w));
    assert(ws.drop_first() == Seq::<Seq<char>>::empty());
    assert(collect_asns(ws.drop_first(), seq![target]) == seq![target]);
    assert(Seq::<u32>::empty().push(target) == seq![target]);
    assert(collect_asns(ws, Seq::<u32>::empty()) == seq![target]);
    lemma_reporting_line_extracted(output, target, k);
}

fn char_in(t: &Vec<char>, c: char) -> (res: bool)
    ensures
        res == t@.contains(c),
{
    for i in 0..t.len()
        invariant
            forall|j: int| 0 <= j < i ==> t@[j] != c,
    {
        if t[i] == c {
            assert(t@[i as int] == c);
            return true;
        }
    }
    false
}

fn token_skipped(t: &Vec<char>) -> (res: bool)
    ensures
        res == skipped_token(t@),
{
    char_in(t, ':') || (t.len() > 0 && (t[0] == '{' || t[t.len() - 1] == '}')) || char_in(t, ',')
}

/// The AS path shown by a line split into words.
fn collect_path(tokens: &Vec<Vec<char>>) -> (res: Vec<u32>)
    ensures
        res@ == collect_asns(views(tokens@), Seq::<u32>::empty()),
{
    let ghost w = views(tokens@);
    let mut acc: Vec<u32> = Vec::new();
    assert(w.skip(0) == w);
    for i in 0..tokens.len()
        invariant
            w == views(tokens@),
            collect_asns(w, Seq::<u32>::empty()) == collect_asns(w.skip(i as int), acc@),
    {
        let t = &tokens[i];
        assert(w.skip(i as int)[0] == t@);
        assert(w.skip(i as int).drop_first() == w.skip(i + 1));
        if token_skipped(t) {
        } else if check_all_digits(t, 0) {
            assert(t@.skip(0) == t@);
            assert(t@.subrange(0, t.len() as int) == t@);
            match parse_digits_at_most(t, 0, t.len(), 4294967295) {
                Some(v) => {
                    if v > 0 {
                        acc.push(v as u32);
                    }
                },
                None => {},
            }
        } else if acc.len() > 0 {
            assert(t@.skip(0) == t@);
            return acc;
        } else {
            assert(t@.skip(0) == t@);
        }
    }
    assert(w.skip(tokens.len() as int) == Seq::<Seq<char>>::empty());
    acc
}

/// Parses CLI output from `show ip bgp` and extracts AS-PATHs ending with the target ASN.
///
/// Only tokens composed entirely of ASCII digits are treated as ASNs; tokens with `:`
/// (IPv6 addresses, communities) and AS-SET tokens (`{...}`, or with `,`) are skipped;
/// ASN 0 is rejected, as it is not a valid assignable ASN, and does not interrupt the
/// path. Each line is read on its own, and only a line that mentions the target ASN
/// and whose path ends with it contributes. The result is sorted and free of
/// duplicates.
pub fn extract_as_paths(output: &str, target_origin: u32) -> (paths: Vec<Vec<u32>>)
    ensures
        strictly_sorted(path_views(paths@)),
        forall|p: Seq<u32>|
            path_views(paths@).contains(p) <==> extracted_path(output@, target_origin, p),
{
    let text = chars_of(output);
    let target_str = decimal_chars(target_origin);
    let lines = split_fields(&text, 0, text.len(), '\n');
    assert(text@.subrange(0, text.len() as int) == text@);
    let ghost ls = fields(output@, '\n');
    let mut paths: Vec<Vec<u32>> = Vec::new();
    for k in 0..lines.len()
        invariant
            views(lines@) == ls,
            ls == fields(output@, '\n'),
            target_str@ == decimal(target_origin as nat),
            strictly_sorted(path_views(paths@)),
            forall|p: Seq<u32>|
                path_views(paths@).contains(p) <==> exists|j: int|
                    0 <= j < k && reports_path(#[trigger] ls[j], target_origin) && line_path(ls[j])
                        == p,
    {
        let line = &lines[k];
        assert(ls[k as int] == line@);
        let ghost before = path_views(paths@);
        if contains_chars(line, &target_str) {
            let tokens = split_words(line);
            let path = collect_path(&tokens);
            if path.len() > 0 && path[path.len() - 1] == target_origin {
                insert_path(&mut paths, path);
            }
        }
        assert forall|p: Seq<u32>|
            path_views(paths@).contains(p) <==> exists|j: int|
                0 <= j < k + 1 && reports_path(#[trigger] ls[j], target_origin) && line_path(ls[j])
                    == p by {
            if path_views(paths@).contains(p) && !before.contains(p) {
                assert(reports_path(ls[k as int], target_origin) && line_path(ls[k as int]) == p);
            }
            if exists|j: int|
                0 <= j < k + 1 && reports_path(#[trigger] ls[j], target_origin) && line_path(ls[j])
                    == p {
                let j = choose|j: int|
                    0 <= j < k + 1 && reports_path(#[trigger] ls[j], target_origin)
                        && line_path(ls[j]) == p;
                if j < k {
                    assert(before.contains(p));
                }
            }
        }
    }
    paths
}

} // verus!
