use lgview_ng::aspath::{extract_as_paths, lex_less};
use lgview_ng::config::LookingGlassConfig;
use lgview_ng::report::{
    column_width, exit_code, first_duplicate_name, is_valid_path, outcome, render_path,
    result_rows, tally, Outcome, QueryResult, RowStatus,
};

const CISCO_OUTPUT: &str = "BGP routing table entry\n\
   Network          Next Hop            Metric LocPrf Weight Path\n\
*> 177.11.98.0/24   200.1.1.1                0             0 3257 263009 262875 i\n\
*                   200.1.1.2                0             0 1299 262875 i\n\
*  177.11.98.0/24   2001:db8::1                            0 174 263009 262875 i\n\
*  177.11.98.0/24   200.1.1.9                0             0 3257 263009 262875 i\n\
router>";

#[test]
fn extracts_sorted_unique_paths() {
    let paths = extract_as_paths(CISCO_OUTPUT, 262875);
    assert_eq!(
        paths,
        vec![vec![174, 263009, 262875], vec![1299, 262875], vec![3257, 263009, 262875]]
    );
}

#[test]
fn extraction_skips_as_sets_and_communities() {
    let out = "*> 1.0.0.0/24 10.0.0.1 0 0 65001 {65002,65003} 65010 i\n\
               *> 1.0.0.0/24 10.0.0.2 0 0 65004 64496:100 65010 i\n\
               *> 1.0.0.0/24 10.0.0.3 0 0 65005 65006,65007} 65010 i";
    assert_eq!(
        extract_as_paths(out, 65010),
        vec![vec![65001, 65010], vec![65004, 65010], vec![65005, 65010]]
    );
}

#[test]
fn extraction_rejects_asn_zero_and_overflow() {
    let out = "x 0 99999999999 65001 65010";
    assert_eq!(extract_as_paths(out, 65010), vec![vec![65001, 65010]]);
    // A 0 is passed over and does not interrupt the path.
    let out2 = "x 7 65001 0 65010";
    assert_eq!(extract_as_paths(out2, 65010), vec![vec![7, 65001, 65010]]);
    let juniper = "  AS path: 3257 0 65001 I";
    assert_eq!(extract_as_paths(juniper, 65001), vec![vec![3257, 65001]]);
}

#[test]
fn extraction_stops_at_first_word_after_path() {
    let out = "*> 10.0.0.0/8 1 2 3 i 4 5 65010";
    assert_eq!(extract_as_paths(out, 65010), Vec::<Vec<u32>>::new());
    let out2 = "*> 10.0.0.0/8 1 2 65010 i 4 5";
    assert_eq!(extract_as_paths(out2, 65010), vec![vec![1, 2, 65010]]);
}

#[test]
fn extraction_requires_target_at_end() {
    let out = "*> 10.0.0.0/8 65010 3257 i\n*> 10.0.0.0/8 3257 i";
    assert_eq!(extract_as_paths(out, 65010), Vec::<Vec<u32>>::new());
}

#[test]
fn extraction_handles_crlf_and_leading_zeros() {
    let out = "*> 10.0.0.0/8 3257 065010\r\n*> 10.0.0.0/8 174 65010\r\n";
    assert_eq!(extract_as_paths(out, 65010), vec![vec![174, 65010], vec![3257, 65010]]);
}

#[test]
fn extraction_of_empty_output() {
    assert_eq!(extract_as_paths("", 65010), Vec::<Vec<u32>>::new());
    assert_eq!(extract_as_paths("65010", 0), Vec::<Vec<u32>>::new());
}

#[test]
fn extraction_takes_every_nonzero_number_before_the_origin_code() {
    // Non-zero Metric and LocPrf values stand before the path and are collected with
    // it; a zero Metric or Weight is passed over.
    let out = "*> 203.0.113.0/24 192.0.2.1 20 100 0 3257 65001 i";
    assert_eq!(extract_as_paths(out, 65001), vec![vec![20, 100, 3257, 65001]]);
    let table = "   Network          Next Hop            Metric LocPrf Weight Path\n\
*> 203.0.113.0/24   192.0.2.1               20    100      0 3257 65001 i\n\
*                   192.0.2.2                              0 174 65001 i\n\
*                   192.0.2.3                0             0 1299 65001 i";
    assert_eq!(
        extract_as_paths(table, 65001),
        vec![vec![20, 100, 3257, 65001], vec![174, 65001], vec![1299, 65001]]
    );
}

#[test]
fn lexicographic_order_of_paths() {
    assert!(lex_less(&vec![1, 2], &vec![1, 2, 3]));
    assert!(lex_less(&vec![1, 2, 3], &vec![2]));
    assert!(!lex_less(&vec![2], &vec![1, 2, 3]));
    assert!(!lex_less(&vec![1, 2], &vec![1, 2]));
    assert!(lex_less(&vec![], &vec![0]));
}

#[test]
fn valid_paths_end_with_mitigation_then_origin() {
    assert!(is_valid_path(&vec![3257, 53427, 53158], 53427, 53158));
    assert!(is_valid_path(&vec![53427, 53158], 53427, 53158));
    assert!(!is_valid_path(&vec![53158], 53427, 53158));
    assert!(!is_valid_path(&vec![3257, 53158], 53427, 53158));
    assert!(!is_valid_path(&vec![53427, 3257, 53158], 53427, 53158));
    assert!(!is_valid_path(&vec![], 53427, 53158));
}

fn result(name: &str, paths: Vec<Vec<u32>>, error: Option<&str>) -> QueryResult {
    QueryResult { lg_name: name.to_string(), as_paths: paths, error: error.map(|e| e.to_string()) }
}

#[test]
fn tally_counts_valid_and_leaks() {
    let results = vec![
        result("Route Views", vec![vec![3257, 53427, 53158], vec![1299, 53158]], None),
        result("IX.br São Paulo", vec![vec![53427, 53158]], None),
        result("Broken", vec![vec![1, 53158]], Some("Connection timeout/error: refused")),
        result("Empty", vec![], None),
    ];
    let t = tally(&results, 53427, 53158);
    assert_eq!((t.total, t.valid, t.leaks), (3, 2, 1));
    assert!(matches!(outcome(&t), Outcome::LeaksDetected));
    assert_eq!(exit_code(&outcome(&t)), 1);
}

#[test]
fn all_routed_paths_succeed() {
    let results = vec![
        result("Route Views", vec![vec![3257, 53427, 53158]], None),
        result("IX.br São Paulo", vec![vec![53427, 53158]], None),
    ];
    let t = tally(&results, 53427, 53158);
    assert_eq!((t.total, t.valid, t.leaks), (2, 2, 0));
    assert!(matches!(outcome(&t), Outcome::AllValid));
    assert_eq!(exit_code(&outcome(&t)), 0);
}

#[test]
fn no_checked_paths_fail() {
    let results = vec![result("Empty", vec![], None), result("Err", vec![], Some("x"))];
    let t = tally(&results, 1, 2);
    assert_eq!((t.total, t.valid, t.leaks), (0, 0, 0));
    assert!(matches!(outcome(&t), Outcome::NoPathsChecked));
    assert_eq!(exit_code(&outcome(&t)), 1);
}

#[test]
fn paths_render_with_spaces() {
    assert_eq!(render_path(&vec![3257, 53427, 53158]), "3257 53427 53158");
    assert_eq!(render_path(&vec![0, 4294967295]), "0 4294967295");
    assert_eq!(render_path(&vec![7]), "7");
    assert_eq!(render_path(&vec![]), "");
}

#[test]
fn rows_for_each_kind_of_result() {
    let err = result("A", vec![], Some("Failed to reach login prompt"));
    let rows = result_rows(&err, 53427, 53158);
    assert_eq!(rows.len(), 1);
    assert!(matches!(rows[0].status, RowStatus::Error));
    assert_eq!(rows[0].detail, "Failed to reach login prompt");

    let empty = result("B", vec![], None);
    let rows = result_rows(&empty, 53427, 53158);
    assert_eq!(rows.len(), 1);
    assert!(matches!(rows[0].status, RowStatus::NoPaths));
    assert_eq!(rows[0].detail, "No announcements containing target mitigated ASN found");

    let some = result("C", vec![vec![3257, 53427, 53158], vec![1299, 53158]], None);
    let rows = result_rows(&some, 53427, 53158);
    assert_eq!(rows.len(), 2);
    assert!(matches!(rows[0].status, RowStatus::Valid));
    assert_eq!(rows[0].detail, "3257 53427 53158");
    assert!(matches!(rows[1].status, RowStatus::Leak));
    assert_eq!(rows[1].detail, "1299 53158");
    assert_eq!(rows[1].lg_name, "C");
}

#[test]
fn name_column_is_at_least_25_bytes() {
    let results = vec![result("Route Views", vec![], None)];
    assert_eq!(column_width(&results), 25);
    let long = vec![
        result("Route Views", vec![], None),
        result("IX.br São Paulo - Route Server 2", vec![], None),
    ];
    // 32 characters, one of them two bytes long in UTF-8.
    assert_eq!(column_width(&long), 33);
    assert_eq!(column_width(&vec![]), 25);
}

fn named(name: &str) -> LookingGlassConfig {
    LookingGlassConfig {
        name: name.to_string(),
        host: "h".to_string(),
        username: None,
        password: None,
        prompt_suffix: None,
        template: None,
        cmd_template: None,
        pager_cmd: None,
        is_route_views: false,
    }
}

#[test]
fn duplicate_names_are_found() {
    let lgs = vec![named("A"), named("B"), named("C"), named("B"), named("A")];
    assert_eq!(first_duplicate_name(&lgs), Some(3));
    let unique = vec![named("A"), named("a"), named("B")];
    assert_eq!(first_duplicate_name(&unique), None);
    assert_eq!(first_duplicate_name(&vec![]), None);
}
