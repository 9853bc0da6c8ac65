use co2::aws::{
    month_label_of, month_of_start, query_title, query_window, result_from_api, results_from_cli, CliOutput,
    CliResult, EmissionsResult, PageStep,
};
use co2::calendar::{MAX_YEAR, MIN_YEAR};
use co2::period::YearMonth;
use serde_json::Value;

/// Reads the AWS CLI's JSON into the library's form of it.
fn cli_from_json(json: &str) -> CliOutput<f64> {
    let value: Value = serde_json::from_str(json).unwrap();
    let results = value["Results"]
        .as_array()
        .unwrap()
        .iter()
        .map(|r| CliResult {
            time_period_start: r["TimePeriod"]["Start"].as_str().unwrap().to_string(),
            dimensions_values: r["DimensionsValues"]
                .as_object()
                .unwrap()
                .iter()
                .map(|(k, v)| (k.clone(), v.as_str().unwrap().to_string()))
                .collect(),
            emissions_values: r["EmissionsValues"]
                .as_object()
                .unwrap()
                .iter()
                .map(|(k, v)| (k.clone(), v["Value"].as_f64().unwrap()))
                .collect(),
        })
        .collect();
    CliOutput { results }
}

fn parse_emissions_json(json: &str) -> Result<Vec<EmissionsResult<f64>>, String> {
    results_from_cli(&cli_from_json(json), 0.0)
}

// A representative slice of the AWS CLI's get-estimated-carbon-emissions
// output. Extra fields (End, Unit) are present to verify they are tolerated.
const SAMPLE_JSON: &str = r#"{
    "Results": [
        {
            "TimePeriod": {
                "Start": "2024-01-01T00:00:00+00:00",
                "End":   "2024-02-01T00:00:00+00:00"
            },
            "DimensionsValues": {
                "REGION":  "us-east-1",
                "SERVICE": "AmazonEC2"
            },
            "EmissionsValues": {
                "TOTAL_LBM_CARBON_EMISSIONS": { "Value": 1.5, "Unit": "MTCO2e" },
                "TOTAL_MBM_CARBON_EMISSIONS": { "Value": 0.3, "Unit": "MTCO2e" }
            }
        },
        {
            "TimePeriod": { "Start": "2024-02-01T00:00:00+00:00" },
            "DimensionsValues": {
                "REGION":  "eu-west-1",
                "SERVICE": "AmazonS3"
            },
            "EmissionsValues": {
                "TOTAL_LBM_CARBON_EMISSIONS": { "Value": 0.05 },
                "TOTAL_MBM_CARBON_EMISSIONS": { "Value": 0.01 }
            }
        }
    ]
}"#;

#[test]
fn parses_sample_into_emissions_results() {
    let results = parse_emissions_json(SAMPLE_JSON).unwrap();
    assert_eq!(results.len(), 2);

    assert_eq!(results[0].month, "2024-01");
    assert_eq!(results[0].region, "us-east-1");
    assert_eq!(results[0].service, "AmazonEC2");
    assert_eq!(results[0].lbm, 1.5);
    assert_eq!(results[0].mbm, 0.3);

    assert_eq!(results[1].month, "2024-02");
    assert_eq!(results[1].region, "eu-west-1");
    assert_eq!(results[1].service, "AmazonS3");
    assert_eq!(results[1].lbm, 0.05);
    assert_eq!(results[1].mbm, 0.01);
}

#[test]
fn missing_emissions_values_default_to_zero() {
    let json = r#"{
        "Results": [{
            "TimePeriod": { "Start": "2024-01-01T00:00:00+00:00" },
            "DimensionsValues": { "REGION": "us-east-1", "SERVICE": "AmazonEC2" },
            "EmissionsValues": {}
        }]
    }"#;
    let results = parse_emissions_json(json).unwrap();
    assert_eq!(results.len(), 1);
    assert_eq!(results[0].lbm, 0.0);
    assert_eq!(results[0].mbm, 0.0);
}

#[test]
fn missing_dimensions_default_to_empty_strings() {
    let json = r#"{
        "Results": [{
            "TimePeriod": { "Start": "2024-01-01T00:00:00+00:00" },
            "DimensionsValues": {},
            "EmissionsValues": {
                "TOTAL_LBM_CARBON_EMISSIONS": { "Value": 1.0 },
                "TOTAL_MBM_CARBON_EMISSIONS": { "Value": 0.2 }
            }
        }]
    }"#;
    let results = parse_emissions_json(json).unwrap();
    assert_eq!(results[0].region, "");
    assert_eq!(results[0].service, "");
}

#[test]
fn only_one_emissions_type_present() {
    let json = r#"{
        "Results": [{
            "TimePeriod": { "Start": "2024-01-01T00:00:00+00:00" },
            "DimensionsValues": { "REGION": "us-east-1", "SERVICE": "AmazonEC2" },
            "EmissionsValues": {
                "TOTAL_LBM_CARBON_EMISSIONS": { "Value": 1.0 }
            }
        }]
    }"#;
    let results = parse_emissions_json(json).unwrap();
    assert_eq!(results[0].lbm, 1.0);
    assert_eq!(results[0].mbm, 0.0);
}

#[test]
fn empty_results_array_yields_empty_vec() {
    let results = parse_emissions_json(r#"{ "Results": [] }"#).unwrap();
    assert!(results.is_empty());
}

#[test]
fn malformed_time_period_start_fails() {
    let json = r#"{
        "Results": [{
            "TimePeriod": { "Start": "abc" },
            "DimensionsValues": {},
            "EmissionsValues": {}
        }]
    }"#;
    let err = parse_emissions_json(json).unwrap_err();
    assert!(err.contains("TimePeriod.Start"), "unexpected error: {err}");
    assert_eq!(err, "unexpected TimePeriod.Start format: abc");
}

#[test]
fn truncates_iso_timestamp_to_year_month() {
    let json = r#"{
        "Results": [{
            "TimePeriod": { "Start": "2025-07-15T12:34:56.789Z" },
            "DimensionsValues": { "REGION": "us-east-1", "SERVICE": "AmazonEC2" },
            "EmissionsValues": {
                "TOTAL_LBM_CARBON_EMISSIONS": { "Value": 1.0 },
                "TOTAL_MBM_CARBON_EMISSIONS": { "Value": 0.1 }
            }
        }]
    }"#;
    let results = parse_emissions_json(json).unwrap();
    assert_eq!(results[0].month, "2025-07");
}

fn mock_results(year: i32) -> Vec<EmissionsResult<f64>> {
    let months: Vec<String> = (1..=12).map(|m| format!("{year}-{m:02}")).collect();
    let profiles: &[(&str, &str, f64, [f64; 12])] = &[
        ("AmazonEC2", "eu-west-1", 0.218, [6.22, 8.47, 9.64, 9.32, 7.69, 10.62, 8.21, 6.78, 9.43, 11.07, 18.49, 10.18]),
        ("AmazonRDS", "eu-west-1", 0.218, [7.64, 7.95, 8.21, 7.94, 7.69, 8.04, 7.82, 7.54, 8.18, 8.31, 8.82, 8.07]),
        ("AmazonS3", "us-east-1", 0.218, [0.04, 0.04, 0.04, 0.04, 0.04, 0.04, 0.04, 0.04, 0.04, 0.04, 0.04, 0.04]),
    ];
    profiles
        .iter()
        .flat_map(|(service, region, mbm_ratio, monthly)| {
            months.iter().zip(monthly.iter()).map(move |(month, &lbm)| EmissionsResult {
                month: month.clone(),
                region: region.to_string(),
                service: service.to_string(),
                lbm,
                mbm: lbm * mbm_ratio,
            })
        })
        .collect()
}

#[test]
fn mock_results_spans_full_year() {
    let results = mock_results(2024);
    let months: std::collections::HashSet<_> = results.iter().map(|r| r.month.clone()).collect();
    assert_eq!(months.len(), 12);
    for m in 1..=12 {
        assert!(months.contains(&format!("2024-{m:02}")));
        // the library writes month labels the same way
        assert!(months.contains(&YearMonth { year: 2024, month: m }.to_string()));
    }
}

// ── further cases ─────────────────────────────────────────────────────────

#[test]
fn first_bad_start_is_reported() {
    let json = r#"{
        "Results": [
            { "TimePeriod": { "Start": "2024-01-01" }, "DimensionsValues": {}, "EmissionsValues": {} },
            { "TimePeriod": { "Start": "2024" }, "DimensionsValues": {}, "EmissionsValues": {} },
            { "TimePeriod": { "Start": "x" }, "DimensionsValues": {}, "EmissionsValues": {} }
        ]
    }"#;
    assert_eq!(
        parse_emissions_json(json).unwrap_err(),
        "unexpected TimePeriod.Start format: 2024"
    );
}

#[test]
fn month_of_start_needs_seven_whole_bytes() {
    assert_eq!(month_of_start("2024-01"), Some("2024-01".to_string()));
    assert_eq!(month_of_start("2024-0"), None);
    // the seventh byte falls inside "é"
    assert_eq!(month_of_start("2024-0é"), None);
    assert_eq!(month_of_start("2024-é1x"), Some("2024-é".to_string()));
}

#[test]
fn api_month_labels() {
    assert_eq!(month_label_of(None), "");
    assert_eq!(month_label_of(Some(1_704_067_200)), "2024-01");
    assert_eq!(month_label_of(Some(1_719_791_999)), "2024-06");
    assert_eq!(month_label_of(Some(-1)), "1969-12");
    // far outside the dates chrono can hold: the epoch's month
    assert_eq!(month_label_of(Some(i64::MAX)), "1970-01");
    // chrono's %Y pads years to four digits
    assert_eq!(month_label_of(Some(-61_000_000_000)), "0036-12");
}

#[test]
fn api_results_default_missing_parts() {
    let r = result_from_api(Some(0), None, Some("S3".to_string()), Some(2.5), None, 0.0);
    assert_eq!(r.month, "1970-01");
    assert_eq!(r.region, "");
    assert_eq!(r.service, "S3");
    assert_eq!(r.lbm, 2.5);
    assert_eq!(r.mbm, 0.0);
}

#[test]
fn query_window_spans_whole_months() {
    let from = YearMonth { year: 2024, month: 1 };
    let to = YearMonth { year: 2024, month: 6 };
    assert_eq!(query_window(from, to), Ok((1_704_067_200, 1_719_792_000)));
    assert_eq!(query_window(to, to), Ok((1_717_200_000, 1_719_792_000)));
}

#[test]
fn query_window_refuses_reversed_range() {
    let from = YearMonth { year: 2025, month: 3 };
    let to = YearMonth { year: 2024, month: 12 };
    assert_eq!(
        query_window(from, to),
        Err("--from (2025-03) must not be after --to (2024-12)".to_string())
    );
}

#[test]
fn pages_follow_tokens() {
    assert!(matches!(PageStep::first(), PageStep::Request(None)));
    assert!(matches!(PageStep::after_page(Some("t".to_string())), PageStep::Request(Some(t)) if t == "t"));
    assert!(matches!(PageStep::after_page(None), PageStep::Finished));
}

#[test]
fn api_month_labels_at_the_ends_of_chrono_dates() {
    let first = YearMonth { year: MIN_YEAR, month: 1 }.start_timestamp();
    assert_eq!(month_label_of(Some(first)), "-262143-01");
    assert_eq!(month_label_of(Some(first - 1)), "1970-01");
    let last = YearMonth { year: MAX_YEAR, month: 12 }.start_timestamp() + 31 * 86400 - 1;
    assert_eq!(month_label_of(Some(last)), "+262142-12");
    assert_eq!(month_label_of(Some(last + 1)), "1970-01");
    assert_eq!(month_label_of(Some(YearMonth { year: 10000, month: 3 }.start_timestamp())), "+10000-03");
}

#[test]
fn live_query_titles() {
    let jan = YearMonth { year: 2024, month: 1 };
    let dec = YearMonth { year: 2024, month: 12 };
    let jun = YearMonth { year: 2025, month: 6 };
    assert_eq!(query_title("prod", jan, dec), "prod \u{2014} 2024");
    assert_eq!(query_title("prod", jan, jun), "prod \u{2014} 2024-01\u{2013}2025-06");
    assert_eq!(query_title("p", dec, jan), "p \u{2014} 2024-12\u{2013}2024-01");
}
