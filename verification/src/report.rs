use vstd::prelude::*;
use vstd::utf8::encode_utf8;

use crate::aspath::path_views;
use crate::config::{opt_chars, LookingGlassConfig};
use crate::text::{decimal, decimal_chars, str_eq, string_from_chars, string_push};

verus! {

/// What one Looking Glass reported: the AS paths it showed for the target, or the
/// error that kept it from answering.
#[derive(Clone, Debug)]
pub struct QueryResult {
    pub lg_name: String,
    pub as_paths: Vec<Vec<u32>>,
    pub error: Option<String>,
}

impl QueryResult {
    /// A Looking Glass that could not be queried.
    pub fn failure(lg_name: String, error: String) -> (res: QueryResult)
        ensures
            res.lg_name@ == lg_name@,
            res.as_paths@.len() == 0,
            opt_chars(res.error) == Some(error@),
    {
        QueryResult { lg_name, as_paths: Vec::new(), error: Some(error) }
    }
}

/// A path is correctly routed when it ends with the mitigation provider's ASN
/// followed by the mitigated (origin) ASN.
pub open spec fn valid_path(p: Seq<u32>, asn_mitigation: u32, asn_mitigated: u32) -> bool {
    p.len() >= 2 && p[p.len() - 2] == asn_mitigation && p[p.len() - 1] == asn_mitigated
}

/// Any transit ASNs followed by the mitigation ASN and then the mitigated ASN make a
/// valid path, however many transit ASNs there are.
pub proof fn lemma_valid_after_any_transit(transit: Seq<u32>, asn_mitigation: u32, asn_mitigated: u32)
    ensures
        valid_path(transit.push(asn_mitigation).push(asn_mitigated), asn_mitigation, asn_mitigated),
{
    let p = transit.push(asn_mitigation).push(asn_mitigated);
    assert(p[p.len() - 2] == asn_mitigation);
    assert(p[p.len() - 1] == asn_mitigated);
}

/// A valid path is exactly some transit ASNs followed by the mitigation ASN and then
/// the mitigated ASN; a path of fewer than two ASNs is never valid.
pub proof fn lemma_valid_path_shape(p: Seq<u32>, asn_mitigation: u32, asn_mitigated: u32)
    ensures
        p.len() < 2 ==> !valid_path(p, asn_mitigation, asn_mitigated),
        valid_path(p, asn_mitigation, asn_mitigated) <==> exists|transit: Seq<u32>|
            p == #[trigger] transit.push(asn_mitigation).push(asn_mitigated),
{
    if valid_path(p, asn_mitigation, asn_mitigated) {
        let transit = p.take(p.len() - 2);
        assert(p == transit.push(asn_mitigation).push(asn_mitigated));
    }
    if exists|transit: Seq<u32>| p == #[trigger] transit.push(asn_mitigation).push(asn_mitigated) {
        let transit = choose|transit: Seq<u32>|
            p == #[trigger] transit.push(asn_mitigation).push(asn_mitigated);
        lemma_valid_after_any_transit(transit, asn_mitigation, asn_mitigated);
    }
}

/// Putting more transit ASNs in front of a path of at least two ASNs does not change
/// whether it is valid.
pub proof fn lemma_valid_path_prefix(
    transit: Seq<u32>,
    p: Seq<u32>,
    asn_mitigation: u32,
    asn_mitigated: u32,
)
    requires
        p.len() >= 2,
    ensures
        valid_path(transit + p, asn_mitigation, asn_mitigated) == valid_path(p, asn_mitigation, asn_mitigated),
{
    let q = transit + p;
    assert(q[q.len() - 2] == p[p.len() - 2]);
    assert(q[q.len() - 1] == p[p.len() - 1]);
}

/// Whether a path passes through the mitigation provider right before the origin.
pub fn is_valid_path(path: &Vec<u32>, asn_mitigation: u32, asn_mitigated: u32) -> (res: bool)
    ensures
        res == valid_path(path@, asn_mitigation, asn_mitigated),
{
    let n = path.len();
    if n >= 2 {
        path[n - 2] == asn_mitigation && path[n - 1] == asn_mitigated
    } else {
        false
    }
}

/// The paths that count in the summary, in report order: those of every Looking Glass
/// that answered without error.
pub open spec fn checked_paths(results: Seq<QueryResult>) -> Seq<Seq<u32>>
    decreases results.len(),
{
    if results.len() == 0 {
        Seq::<Seq<u32>>::empty()
    } else {
        let r = results.last();
        checked_paths(results.drop_last()) + if r.error.is_none() {
            path_views(r.as_paths@)
        } else {
            Seq::<Seq<u32>>::empty()
        }
    }
}

/// The number of correctly routed paths among `paths`.
pub open spec fn count_valid(paths: Seq<Seq<u32>>, asn_mitigation: u32, asn_mitigated: u32) -> nat
    decreases paths.len(),
{
    if paths.len() == 0 {
        0
    } else {
        count_valid(paths.drop_last(), asn_mitigation, asn_mitigated) + if valid_path(
            paths.last(),
            asn_mitigation,
            asn_mitigated,
        ) {
            1nat
        } else {
            0nat
        }
    }
}

proof fn lemma_count_valid_le(paths: Seq<Seq<u32>>, m: u32, d: u32)
    ensures
        count_valid(paths, m, d) <= paths.len(),
    decreases paths.len(),
{
    if paths.len() > 0 {
        lemma_count_valid_le(paths.drop_last(), m, d);
    }
}

/// All paths are valid exactly when the valid ones are all of them.
proof fn lemma_count_valid_all(paths: Seq<Seq<u32>>, m: u32, d: u32)
    ensures
        count_valid(paths, m, d) == paths.len() <==> forall|i: int|
            0 <= i < paths.len() ==> valid_path(#[trigger] paths[i], m, d),
    decreases paths.len(),
{
    if paths.len() > 0 {
        let init = paths.drop_last();
        lemma_count_valid_all(init, m, d);
        lemma_count_valid_le(init, m, d);
        if forall|i: int| 0 <= i < paths.len() ==> valid_path(#[trigger] paths[i], m, d) {
            assert forall|i: int| 0 <= i < init.len() implies valid_path(#[trigger] init[i], m, d) by {
                assert(init[i] == paths[i]);
            }
            assert(valid_path(paths[paths.len() - 1], m, d));
        }
        if count_valid(paths, m, d) == paths.len() {
            assert forall|i: int| 0 <= i < paths.len() implies valid_path(#[trigger] paths[i], m, d) by {
                if i < init.len() {
                    assert(init[i] == paths[i]);
                }
            }
        }
    }
}

/// The run succeeds (exits with 0) exactly when at least one path was checked and
/// every checked path ends with the mitigation ASN followed by the mitigated ASN;
/// a single leak, or no path at all, makes it fail.
pub proof fn lemma_success_iff_all_routed(results: Seq<QueryResult>, asn_mitigation: u32, asn_mitigated: u32)
    ensures
        ({
            let paths = checked_paths(results);
            let valid = count_valid(paths, asn_mitigation, asn_mitigated);
            verdict(paths.len(), (paths.len() - valid) as nat) is AllValid <==> (paths.len() > 0
                && forall|i: int|
                0 <= i < paths.len() ==> valid_path(#[trigger] paths[i], asn_mitigation, asn_mitigated))
        }),
{
    let paths = checked_paths(results);
    lemma_count_valid_le(paths, asn_mitigation, asn_mitigated);
    lemma_count_valid_all(paths, asn_mitigation, asn_mitigated);
}

/// The summary counts: every checked path is either valid or a leak.
pub struct Tally {
    pub total: usize,
    pub valid: usize,
    pub leaks: usize,
}

/// Counts the checked, valid and leaking paths over all results.
pub fn tally(results: &Vec<QueryResult>, asn_mitigation: u32, asn_mitigated: u32) -> (t: Tally)
    requires
        checked_paths(results@).len() <= usize::MAX,
    ensures
        t.total == checked_paths(results@).len(),
        t.valid == count_valid(checked_paths(results@), asn_mitigation, asn_mitigated),
        t.leaks == t.total - t.valid,
{
    let mut total: usize = 0;
    let mut valid: usize = 0;
    let n = results.len();
    assert(results@.take(0) =~= Seq::<QueryResult>::empty());
    for k in 0..n
        invariant
            n == results.len(),
            checked_paths(results@).len() <= usize::MAX,
            total == checked_paths(results@.take(k as int)).len(),
            valid == count_valid(checked_paths(results@.take(k as int)), asn_mitigation, asn_mitigated),
    {
        let r = &results[k];
        let ghost before = checked_paths(results@.take(k as int));
        proof {
            assert(results@.take(k + 1).drop_last() == results@.take(k as int));
            assert(results@.take(k + 1).last() == *r);
            lemma_checked_prefix(results@, k + 1);
        }
        if r.error.is_none() {
            let m = r.as_paths.len();
            let ghost added = path_views(r.as_paths@);
            for i in 0..m
                invariant
                    m == r.as_paths.len(),
                    added == path_views(r.as_paths@),
                    before + added == checked_paths(results@.take(k + 1)),
                    checked_paths(results@.take(k + 1)).len() <= usize::MAX,
                    total == before.len() + i,
                    valid == count_valid(before + added.take(i as int), asn_mitigation, asn_mitigated),
            {
                proof {
                    assert((before + added.take(i + 1)).drop_last() == before + added.take(i as int));
                    assert((before + added.take(i + 1)).last() == r.as_paths@[i as int]@);
                    lemma_count_valid_le(before + added.take(i as int), asn_mitigation, asn_mitigated);
                }
                total = total + 1;
                if is_valid_path(&r.as_paths[i], asn_mitigation, asn_mitigated) {
                    valid = valid + 1;
                }
            }
            assert(added.take(m as int) == added);
        } else {
            assert(before + Seq::<Seq<u32>>::empty() == before);
        }
    }
    assert(results@.take(n as int) == results@);
    proof {
        lemma_count_valid_le(checked_paths(results@), asn_mitigation, asn_mitigated);
    }
    Tally { total, valid, leaks: total - valid }
}

/// The checked paths of a prefix of the results fit within those of all of them.
proof fn lemma_checked_prefix(results: Seq<QueryResult>, j: int)
    requires
        0 <= j <= results.len(),
    ensures
        checked_paths(results.take(j)).len() <= checked_paths(results).len(),
    decreases results.len(),
{
    if j < results.len() {
        assert(results.drop_last().take(j) == results.take(j));
        lemma_checked_prefix(results.drop_last(), j);
    } else {
        assert(results.take(j) == results);
    }
}

/// How a run ends.
pub enum Outcome {
    /// At least one path bypasses the mitigation provider.
    LeaksDetected,
    /// No path was checked at all.
    NoPathsChecked,
    /// Every checked path is routed via the mitigation provider.
    AllValid,
}

/// How a run with `total` checked paths and `leaks` leaking ones ends: leaks take
/// precedence; a run with nothing checked is not a success either.
pub open spec fn verdict(total: nat, leaks: nat) -> Outcome {
    if leaks > 0 {
        Outcome::LeaksDetected
    } else if total == 0 {
        Outcome::NoPathsChecked
    } else {
        Outcome::AllValid
    }
}

/// Decides how the run ends from its tally.
pub fn outcome(t: &Tally) -> (res: Outcome)
    ensures
        res == verdict(t.total as nat, t.leaks as nat),
{
    if t.leaks > 0 {
        Outcome::LeaksDetected
    } else if t.total == 0 {
        Outcome::NoPathsChecked
    } else {
        Outcome::AllValid
    }
}

/// The process exit code: 1 unless every checked path is valid.
pub fn exit_code(o: &Outcome) -> (code: i32)
    ensures
        code == (if *o is AllValid { 0i32 } else { 1i32 }),
{
    match o {
        Outcome::AllValid => 0,
        _ => 1,
    }
}

/// A path as the report shows it: the ASNs in decimal, separated by single spaces.
pub open spec fn path_text(p: Seq<u32>) -> Seq<char>
    decreases p.len(),
{
    if p.len() == 0 {
        Seq::<char>::empty()
    } else if p.len() == 1 {
        decimal(p[0] as nat)
    } else {
        path_text(p.drop_last()) + seq![' '] + decimal(p.last() as nat)
    }
}

/// Renders a path for the report.
pub fn render_path(path: &Vec<u32>) -> (res: String)
    ensures
        res@ == path_text(path@),
{
    let mut res = String::new();
    assert(path@.take(0) == Seq::<u32>::empty());
    for i in 0..path.len()
        invariant
            res@ == path_text(path@.take(i as int)),
    {
        let digits = decimal_chars(path[i]);
        let d = string_from_chars(&digits);
        proof {
            assert(path@.take(i + 1).drop_last() == path@.take(i as int));
            assert(path@.take(i + 1).last() == path@[i as int]);
        }
        if i > 0 {
            string_push(&mut res, ' ');
        } else {
            assert(path@.take(1) == seq![path@[0]]);
        }
        res.append(d.as_str());
    }
    assert(path@.take(path.len() as int) == path@);
    res
}

/// The status of one row of the report table.
pub enum RowStatus {
    Error,
    NoPaths,
    Valid,
    Leak,
}

/// One row of the report table: the Looking Glass, the status and the detail column
/// (the error, the explanation of an empty answer, or the path).
pub struct ReportRow {
    pub lg_name: String,
    pub status: RowStatus,
    pub detail: String,
}

/// The detail shown for a Looking Glass without matching announcements.
pub open spec fn no_paths_text() -> Seq<char> {
    "No announcements containing target mitigated ASN found"@
}

/// The rows of one result: an error row, a no-paths row, or one row per path marked
/// valid or leaking, in the order of the paths.
pub fn result_rows(res: &QueryResult, asn_mitigation: u32, asn_mitigated: u32) -> (rows: Vec<ReportRow>)
    ensures
        forall|i: int| 0 <= i < rows.len() ==> (#[trigger] rows@[i]).lg_name@ == res.lg_name@,
        match res.error {
            Some(e) => rows.len() == 1 && rows@[0].status is Error && rows@[0].detail@ == e@,
            None => if res.as_paths.len() == 0 {
                rows.len() == 1 && rows@[0].status is NoPaths && rows@[0].detail@ == no_paths_text()
            } else {
                &&& rows.len() == res.as_paths.len()
                &&& forall|i: int|
                    0 <= i < rows.len() ==> {
                        &&& (#[trigger] rows@[i]).detail@ == path_text(res.as_paths@[i]@)
                        &&& (rows@[i].status is Valid) == valid_path(
                            res.as_paths@[i]@,
                            asn_mitigation,
                            asn_mitigated,
                        )
                        &&& (rows@[i].status is Valid || rows@[i].status is Leak)
                    }
            },
        },
{
    let mut rows: Vec<ReportRow> = Vec::new();
    if let Some(err) = &res.error {
        rows.push(ReportRow { lg_name: res.lg_name.clone(), status: RowStatus::Error, detail: err.clone() });
        return rows;
    }
    if res.as_paths.len() == 0 {
        rows.push(ReportRow {
            lg_name: res.lg_name.clone(),
            status: RowStatus::NoPaths,
            detail: "No announcements containing target mitigated ASN found".to_owned(),
        });
        return rows;
    }
    for i in 0..res.as_paths.len()
        invariant
            res.error.is_none(),
            rows.len() == i,
            forall|j: int| 0 <= j < rows.len() ==> (#[trigger] rows@[j]).lg_name@ == res.lg_name@,
            forall|j: int|
                0 <= j < rows.len() ==> {
                    &&& (#[trigger] rows@[j]).detail@ == path_text(res.as_paths@[j]@)
                    &&& (rows@[j].status is Valid) == valid_path(
                        res.as_paths@[j]@,
                        asn_mitigation,
                        asn_mitigated,
                    )
                    &&& (rows@[j].status is Valid || rows@[j].status is Leak)
                },
    {
        let path = &res.as_paths[i];
        let status = if is_valid_path(path, asn_mitigation, asn_mitigated) {
            RowStatus::Valid
        } else {
            RowStatus::Leak
        };
        rows.push(ReportRow { lg_name: res.lg_name.clone(), status, detail: render_path(path) });
    }
    rows
}

/// The number of bytes of a text in UTF-8, as `str::len` returns it.
pub open spec fn utf8_len(s: Seq<char>) -> usize {
    encode_utf8(s).len() as usize
}

/// The width of the Looking Glass column: 25, widened to the longest name in bytes.
pub open spec fn name_column_width(results: Seq<QueryResult>) -> nat
    decreases results.len(),
{
    if results.len() == 0 {
        25
    } else {
        let w = name_column_width(results.drop_last());
        let l = utf8_len(results.last().lg_name@);
        if l > w {
            l as nat
        } else {
            w
        }
    }
}

/// Computes the width of the Looking Glass column.
pub fn column_width(results: &Vec<QueryResult>) -> (w: usize)
    ensures
        w == name_column_width(results@),
{
    let mut w: usize = 25;
    assert(results@.take(0) == Seq::<QueryResult>::empty());
    for k in 0..results.len()
        invariant
            w == name_column_width(results@.take(k as int)),
    {
        assert(results@.take(k + 1).drop_last() == results@.take(k as int));
        assert(results@.take(k + 1).last() == results@[k as int]);
        let l = results[k].lg_name.as_str().len();
        if l > w {
            w = l;
        }
    }
    assert(results@.take(results.len() as int) == results@);
    w
}

/// The names of the configured Looking Glasses are pairwise different.
pub open spec fn names_distinct(lgs: Seq<LookingGlassConfig>) -> bool {
    forall|i: int, j: int| 0 <= i < j < lgs.len() ==> lgs[i].name@ != lgs[j].name@
}

/// Finds the first Looking Glass whose name repeats an earlier one; the
/// configuration is refused when there is one.
pub fn first_duplicate_name(lgs: &Vec<LookingGlassConfig>) -> (res: Option<usize>)
    ensures
        res is None <==> names_distinct(lgs@),
        res matches Some(k) ==> {
            &&& k < lgs.len()
            &&& names_distinct(lgs@.take(k as int))
            &&& exists|j: int| 0 <= j < k && lgs@[j].name@ == lgs@[k as int].name@
        },
{
    for k in 0..lgs.len()
        invariant
            names_distinct(lgs@.take(k as int)),
    {
        for j in 0..k
            invariant
                j <= k < lgs.len(),
                names_distinct(lgs@.take(k as int)),
                forall|i: int| 0 <= i < j ==> lgs@[i].name@ != lgs@[k as int].name@,
        {
            if str_eq(lgs[j].name.as_str(), lgs[k].name.as_str()) {
                assert(lgs@[j as int].name@ == lgs@[k as int].name@);
                assert(!names_distinct(lgs@));
                return Some(k);
            }
        }
        assert forall|a: int, b: int|
            #![trigger lgs@.take(k + 1)[a], lgs@.take(k + 1)[b]]
            0 <= a < b < k + 1 implies lgs@.take(k + 1)[a].name@
            != lgs@.take(k + 1)[b].name@ by {
            if b < k {
                assert(lgs@.take(k as int)[a] == lgs@[a]);
                assert(lgs@.take(k as int)[b] == lgs@[b]);
            }
        }
    }
    assert(lgs@.take(lgs.len() as int) == lgs@);
    None
}

} // verus!
