use co2::aws::EmissionsResult;
use co2::grouping::group_positions;
use co2::ranking::top_positions;
use co2::summary::{fit_to_width, year_range_title};

fn rec(month: &str, region: &str, service: &str, lbm: f64, mbm: f64) -> EmissionsResult<f64> {
    EmissionsResult {
        month: month.to_string(),
        region: region.to_string(),
        service: service.to_string(),
        lbm,
        mbm,
    }
}

/// Sums `val` over the records of each key, in ascending key order, through the
/// library's grouping.
fn sum_by(
    results: &[EmissionsResult<f64>],
    key: impl Fn(&EmissionsResult<f64>) -> Vec<String>,
    val: impl Fn(&EmissionsResult<f64>) -> f64,
) -> Vec<(Vec<String>, f64)> {
    let keys: Vec<Vec<String>> = results.iter().map(&key).collect();
    group_positions(&keys)
        .into_iter()
        .map(|group| {
            let mut total = 0.0;
            for &i in &group {
                total += val(&results[i]);
            }
            (keys[group[0]].clone(), total)
        })
        .collect()
}

fn get<'a>(map: &'a [(Vec<String>, f64)], key: &[&str]) -> Option<&'a f64> {
    map.iter().find(|(k, _)| k.iter().map(String::as_str).eq(key.iter().copied())).map(|(_, v)| v)
}

// ── sum_by ────────────────────────────────────────────────────────────────

#[test]
fn sum_by_aggregates_values_under_same_key() {
    let results = vec![
        rec("2024-01", "us-east-1", "EC2", 1.0, 0.2),
        rec("2024-01", "us-east-1", "S3", 0.5, 0.1),
        rec("2024-02", "us-east-1", "EC2", 2.0, 0.4),
    ];
    let by_month = sum_by(&results, |r| vec![r.month.clone()], |r| r.lbm);
    assert_eq!(by_month.len(), 2);
    assert_eq!(get(&by_month, &["2024-01"]), Some(&1.5));
    assert_eq!(get(&by_month, &["2024-02"]), Some(&2.0));
}

#[test]
fn sum_by_returns_keys_in_sorted_order() {
    let results = vec![
        rec("2024-03", "x", "y", 1.0, 0.0),
        rec("2024-01", "x", "y", 1.0, 0.0),
        rec("2024-02", "x", "y", 1.0, 0.0),
    ];
    let by_month = sum_by(&results, |r| vec![r.month.clone()], |r| r.lbm);
    let keys: Vec<_> = by_month.iter().map(|(k, _)| k[0].as_str()).collect();
    assert_eq!(keys, ["2024-01", "2024-02", "2024-03"]);
}

#[test]
fn sum_by_with_tuple_key() {
    let results = vec![
        rec("2024-01", "us-east-1", "EC2", 1.0, 0.0),
        rec("2024-01", "eu-west-1", "EC2", 2.0, 0.0),
        rec("2024-01", "us-east-1", "EC2", 3.0, 0.0),
    ];
    let by_region_service =
        sum_by(&results, |r| vec![r.region.clone(), r.service.clone()], |r| r.lbm);
    assert_eq!(get(&by_region_service, &["us-east-1", "EC2"]), Some(&4.0));
    assert_eq!(get(&by_region_service, &["eu-west-1", "EC2"]), Some(&2.0));
}

#[test]
fn sum_by_on_empty_input_returns_empty_map() {
    let results: Vec<EmissionsResult<f64>> = vec![];
    let by_month = sum_by(&results, |r| vec![r.month.clone()], |r| r.lbm);
    assert!(by_month.is_empty());
}

#[test]
fn grouping_lists_positions_in_key_order() {
    let keys: Vec<Vec<String>> = ["b", "a", "b", "c", "a"]
        .iter()
        .map(|s| vec![s.to_string()])
        .collect();
    assert_eq!(group_positions(&keys), vec![vec![1, 4], vec![0, 2], vec![3]]);
}

#[test]
fn grouping_orders_tuples_by_first_then_second_component() {
    let key = |a: &str, b: &str| vec![a.to_string(), b.to_string()];
    let keys = vec![key("b", "a"), key("a", "z"), key("a", "b"), key("ab", ""), key("a", "z")];
    assert_eq!(group_positions(&keys), vec![vec![2], vec![1, 4], vec![3], vec![0]]);
}

#[test]
fn grouping_orders_strings_by_bytes() {
    // 'Z' (0x5A) < 'a' (0x61) < 'é' (0xC3 0xA9)
    let keys: Vec<Vec<String>> = ["é", "a", "Z", "aa", ""].iter().map(|s| vec![s.to_string()]).collect();
    assert_eq!(group_positions(&keys), vec![vec![4], vec![2], vec![1], vec![3], vec![0]]);
}

// ── top_n ─────────────────────────────────────────────────────────────────

#[test]
fn top_n_returns_largest_entries_descending() {
    // entries a = 1, b = 3, c = 2
    let top = top_positions(&vec![1, 3, 2], 2);
    assert_eq!(top, vec![1, 2]);
}

#[test]
fn top_n_returns_all_when_n_exceeds_size() {
    let top = top_positions(&vec![1, 2], 10);
    assert_eq!(top.len(), 2);
    assert_eq!(top[0], 1);
}

#[test]
fn top_n_zero_returns_empty() {
    assert!(top_positions(&vec![1], 0).is_empty());
}

#[test]
fn top_n_empty_map_returns_empty() {
    assert!(top_positions(&vec![], 5).is_empty());
}

#[test]
fn top_n_keeps_equal_entries_in_order() {
    assert_eq!(top_positions(&vec![5, 7, 5, 7, 1], 4), vec![1, 3, 0, 2]);
    assert_eq!(top_positions(&vec![2, 2, 2], 2), vec![0, 1]);
}

// ── fmt_cell ──────────────────────────────────────────────────────────────

fn fmt_cell(v: f64, width: usize) -> String {
    if v == 0.0 {
        return String::new();
    }
    let candidates = vec![format!("{:.2}", v), format!("{:.1}", v), format!("{:.0}", v)];
    fit_to_width(&candidates, width)
}

#[test]
fn fmt_cell_zero_returns_empty_string() {
    assert_eq!(fmt_cell(0.0, 10), "");
}

#[test]
fn fmt_cell_uses_two_decimals_when_room_allows() {
    assert_eq!(fmt_cell(1.234, 5), "1.23");
    assert_eq!(fmt_cell(1.234, 4), "1.23");
}

#[test]
fn fmt_cell_degrades_to_one_decimal() {
    assert_eq!(fmt_cell(1.234, 3), "1.2");
}

#[test]
fn fmt_cell_degrades_to_integer() {
    assert_eq!(fmt_cell(15.678, 3), "16");
}

#[test]
fn fmt_cell_returns_empty_when_nothing_fits() {
    assert_eq!(fmt_cell(1234.5, 3), "");
}

#[test]
fn fit_counts_bytes() {
    let candidates = vec!["éé".to_string(), "ab".to_string()];
    assert_eq!(fit_to_width(&candidates, 3), "ab");
    assert_eq!(fit_to_width(&candidates, 4), "éé");
    assert_eq!(fit_to_width(&vec![], 4), "");
}

// ── year_range_title ──────────────────────────────────────────────────────

#[test]
fn year_range_title_collapses_single_year() {
    let results = vec![
        rec("2024-01", "us-east-1", "EC2", 1.0, 0.0),
        rec("2024-06", "us-east-1", "EC2", 1.0, 0.0),
        rec("2024-12", "us-east-1", "EC2", 1.0, 0.0),
    ];
    assert_eq!(year_range_title(&results, "fallback"), "2024");
}

#[test]
fn year_range_title_spans_multiple_years() {
    let results = vec![
        rec("2024-06", "us-east-1", "EC2", 1.0, 0.0),
        rec("2025-02", "us-east-1", "EC2", 1.0, 0.0),
    ];
    assert_eq!(year_range_title(&results, "fallback"), "2024\u{2013}2025");
}

#[test]
fn year_range_title_uses_fallback_for_empty_results() {
    let results: Vec<EmissionsResult<f64>> = vec![];
    assert_eq!(year_range_title(&results, "fallback"), "fallback");
}

#[test]
fn year_range_title_uses_fallback_for_malformed_month() {
    let results = vec![rec("abc", "us-east-1", "EC2", 1.0, 0.0)];
    assert_eq!(year_range_title(&results, "fallback"), "fallback");
}

#[test]
fn year_range_title_takes_earliest_and_latest_in_any_order() {
    let results = vec![
        rec("2026-01", "r", "s", 1.0, 0.0),
        rec("2023-05", "r", "s", 1.0, 0.0),
        rec("2025-02", "r", "s", 1.0, 0.0),
    ];
    assert_eq!(year_range_title(&results, "fallback"), "2023\u{2013}2026");
}

#[test]
fn year_range_title_falls_back_when_the_latest_is_short() {
    // "abc" sorts after "2024-01" and is shorter than four bytes
    let results = vec![rec("2024-01", "r", "s", 1.0, 0.0), rec("abc", "r", "s", 1.0, 0.0)];
    assert_eq!(year_range_title(&results, "fb"), "fb");
}

#[test]
fn year_range_title_falls_back_when_the_year_would_split_a_character() {
    // byte 4 falls inside the two bytes of "é"
    let results = vec![rec("abc\u{e9}", "us-east-1", "EC2", 1.0, 0.0)];
    assert_eq!(year_range_title(&results, "fallback"), "fallback");
    let results = vec![
        rec("2024-01", "us-east-1", "EC2", 1.0, 0.0),
        rec("xyz\u{e9}", "us-east-1", "EC2", 1.0, 0.0),
    ];
    assert_eq!(year_range_title(&results, "fallback"), "fallback");
    // a cut that ends on a character boundary still gives a year
    let results = vec![rec("\u{e9}\u{e9}-01", "us-east-1", "EC2", 1.0, 0.0)];
    assert_eq!(year_range_title(&results, "fallback"), "\u{e9}\u{e9}");
}
