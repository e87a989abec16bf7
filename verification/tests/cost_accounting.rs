use cc_switcher::cost::collector::{
    active_unknown_models, aggregate_with_cost, scan_session_results, AggregatedStats, CollectResult,
    CollectWarning, ScanResult,
};
use cc_switcher::cost::display::{report_format, summarize_by_model, ReportFormat};
use cc_switcher::cost::pricing::{is_date_segment, normalize_model_name, Alias, ModelPricing};
use cc_switcher::cost::session::{
    parse_session, timestamp_day, usage_record, MessageContent, SessionLine, SessionMessage, Usage,
};
use cc_switcher::cost::{
    merge_records, month_start_from, records_in_period, sort_by_date_desc, CostManager, CostRecord,
};
use cc_switcher::error::CcsError;
use chrono::{Datelike, NaiveDate};

fn day(y: i32, m: u32, d: u32) -> i32 {
    NaiveDate::from_ymd_opt(y, m, d).unwrap().num_days_from_ce()
}

fn rec(date: i32, model: &str, requests: u64, input: u64, output: u64) -> CostRecord {
    CostRecord {
        date,
        model: model.to_string(),
        requests,
        input_tokens: input,
        output_tokens: output,
        cache_read_tokens: 0,
        cache_creation_tokens: 0,
    }
}

fn pricing() -> ModelPricing {
    ModelPricing::new(
        vec!["acme-coder-4".to_string(), "deepseek-v4-pro".to_string(), "large".to_string()],
        vec![
            Alias { from: "acme-large-4-1-20250805".to_string(), to: "large".to_string() },
            Alias { from: "weird".to_string(), to: "not-priced".to_string() },
        ],
    )
}

fn msg(kind: &str, model: Option<&str>, ts: Option<&str>, input: u64, output: u64) -> SessionLine {
    SessionLine::Message(SessionMessage {
        msg_type: kind.to_string(),
        message: Some(MessageContent {
            model: model.map(|m| m.to_string()),
            usage: Some(Usage {
                input_tokens: input,
                output_tokens: output,
                cache_read_input_tokens: 1,
                cache_creation_input_tokens: 2,
            }),
        }),
        timestamp: ts.map(|t| t.to_string()),
    })
}

fn chars(s: &str) -> Vec<char> {
    s.chars().collect()
}

#[test]
fn date_segments() {
    assert!(is_date_segment(&chars("20250514")));
    assert!(!is_date_segment(&chars("19991231")));
    assert!(!is_date_segment(&chars("30250514")));
    assert!(!is_date_segment(&chars("2025051")));
    assert!(!is_date_segment(&chars("2025051a")));
    assert!(!is_date_segment(&chars("202505140")));
}

#[test]
fn normalization_strips_trailing_dates() {
    assert_eq!(normalize_model_name("deepseek-v4-pro-20250514"), Some("deepseek-v4-pro".to_string()));
    assert_eq!(normalize_model_name("acme-3-large-20240229-v2"), None);
    assert_eq!(normalize_model_name("20250514"), None);
    assert_eq!(normalize_model_name("m-20250514-20250601"), Some("m".to_string()));
    assert_eq!(normalize_model_name("plain"), None);
    assert_eq!(normalize_model_name("a--20250514"), Some("a-".to_string()));
}

#[test]
fn normalization_is_stable() {
    let once = normalize_model_name("acme-coder-4-5-20250929").unwrap();
    assert_eq!(once, "acme-coder-4-5");
    assert_eq!(normalize_model_name(&once), None);
}

#[test]
fn pricing_lookup_order() {
    let p = pricing();
    assert_eq!(p.get("acme-coder-4"), Some("acme-coder-4".to_string()));
    assert_eq!(p.get("acme-large-4-1-20250805"), Some("large".to_string()));
    assert_eq!(p.get("deepseek-v4-pro-20250514"), Some("deepseek-v4-pro".to_string()));
    assert_eq!(p.get("acme-coder-4-20250514"), Some("acme-coder-4".to_string()));
    assert_eq!(p.get("weird"), None);
    assert_eq!(p.get("gpt-5"), None);
    assert_eq!(p.get("large-19990101-x"), None);
}

#[test]
fn merge_groups_by_day_and_model() {
    let d1 = day(2026, 5, 11);
    let d2 = day(2026, 5, 12);
    let records = vec![rec(d1, "a", 1, 10, 5), rec(d2, "a", 2, 20, 6), rec(d1, "a", 3, 30, 7), rec(d1, "b", 1, 1, 1)];
    let groups = merge_records(&records);
    assert_eq!(groups.len(), 3);
    let g = groups.iter().find(|g| g.date == d1 && g.model == "a").unwrap();
    assert_eq!((g.requests, g.input_tokens, g.output_tokens), (4, 40, 12));
    let total: u64 = groups.iter().map(|g| g.input_tokens).sum();
    assert_eq!(total, 61);
}

#[test]
fn merge_wraps_like_release_arithmetic() {
    let records = vec![rec(1, "a", 1, u64::MAX, 0), rec(1, "a", 1, 2, 0)];
    let groups = merge_records(&records);
    assert_eq!(groups[0].input_tokens, 1);
}

#[test]
fn timestamps_are_read_in_utc() {
    let m = |ts: &str| SessionMessage { msg_type: "assistant".into(), message: None, timestamp: Some(ts.into()) };
    assert_eq!(timestamp_day(&m("2025-05-14T10:00:00Z")), Some(day(2025, 5, 14)));
    assert_eq!(timestamp_day(&m("2025-05-14T23:30:00-02:00")), Some(day(2025, 5, 15)));
    assert_eq!(timestamp_day(&m("yesterday")), None);
}

#[test]
fn usage_record_rules() {
    let fallback = day(2024, 1, 1);
    let SessionLine::Message(m) = msg("assistant", None, None, 3, 4) else { unreachable!() };
    let r = usage_record(&m, None, fallback).unwrap();
    assert_eq!((r.date, r.model.as_str(), r.requests, r.cache_creation_tokens), (fallback, "unknown", 1, 2));
    let r = usage_record(&m, Some(7), fallback).unwrap();
    assert_eq!(r.date, 7);
    let SessionLine::Message(u) = msg("user", Some("x"), None, 3, 4) else { unreachable!() };
    assert!(usage_record(&u, None, fallback).is_none());
    let no_usage = SessionMessage {
        msg_type: "assistant".into(),
        message: Some(MessageContent { model: Some("x".into()), usage: None }),
        timestamp: None,
    };
    assert!(usage_record(&no_usage, None, fallback).is_none());
}

#[test]
fn session_lines_are_counted_and_grouped() {
    let fallback = day(2024, 1, 1);
    let lines = vec![
        SessionLine::Blank,
        msg("assistant", Some("m1"), Some("2026-05-11T08:00:00Z"), 100, 10),
        SessionLine::Malformed,
        msg("user", Some("m1"), Some("2026-05-11T08:00:01Z"), 999, 999),
        msg("assistant", Some("m1"), Some("2026-05-11T09:00:00Z"), 50, 5),
        msg("assistant", Some("m2"), None, 1, 1),
    ];
    let r = parse_session(&lines, fallback);
    assert_eq!(r.total_lines, 5);
    assert_eq!(r.skipped_lines, 1);
    assert_eq!(r.records.len(), 2);
    let m1 = r.records.iter().find(|x| x.model == "m1").unwrap();
    assert_eq!((m1.date, m1.requests, m1.input_tokens, m1.output_tokens), (day(2026, 5, 11), 2, 150, 15));
    assert_eq!((m1.cache_read_tokens, m1.cache_creation_tokens), (2, 4));
    let m2 = r.records.iter().find(|x| x.model == "m2").unwrap();
    assert_eq!(m2.date, fallback);
}

#[test]
fn scanning_adds_up_files() {
    let a = parse_session(&vec![msg("assistant", Some("m"), None, 1, 1), SessionLine::Malformed], 5);
    let b = parse_session(&vec![msg("assistant", Some("m"), None, 2, 2)], 5);
    let scan = scan_session_results(&vec![Some(a), None, Some(b), None]);
    assert_eq!(scan.records.len(), 2);
    assert_eq!(scan.total_lines, 3);
    assert_eq!(scan.skipped_lines, 1);
    assert_eq!(scan.failed_files, 2);
}

#[test]
fn aggregation_prices_and_lists_unknown_models() {
    let records = vec![
        rec(1, "zeta", 1, 1, 1),
        rec(1, "deepseek-v4-pro-20250514", 1, 1, 1),
        rec(2, "alpha", 1, 1, 1),
        rec(3, "zeta", 1, 1, 1),
        rec(3, "acme-large-4-1-20250805", 1, 1, 1),
    ];
    let agg = aggregate_with_cost(&records, &pricing());
    assert_eq!(agg.stats.len(), 5);
    assert_eq!(agg.unknown_models, vec!["alpha".to_string(), "zeta".to_string()]);
    let ds = agg.stats.iter().find(|s| s.usage.model.starts_with("deepseek")).unwrap();
    assert_eq!(ds.pricing_key.as_deref(), Some("deepseek-v4-pro"));
    let op = agg.stats.iter().find(|s| s.usage.model.starts_with("acme-large")).unwrap();
    assert_eq!(op.pricing_key.as_deref(), Some("large"));
}

fn stats(date: i32, model: &str, requests: u64, input: u64) -> AggregatedStats {
    AggregatedStats { usage: rec(date, model, requests, input, 0), pricing_key: None }
}

#[test]
fn report_sorts_newest_first_and_keeps_order_within_a_day() {
    let v = vec![stats(1, "a", 1, 0), stats(3, "b", 1, 0), stats(1, "c", 1, 0), stats(2, "d", 1, 0), stats(3, "e", 1, 0)];
    let s = sort_by_date_desc(&v);
    let order: Vec<(i32, &str)> = s.iter().map(|x| (x.usage.date, x.usage.model.as_str())).collect();
    assert_eq!(order, vec![(3, "b"), (3, "e"), (2, "d"), (1, "a"), (1, "c")]);
}

#[test]
fn summary_by_model() {
    let v = vec![stats(1, "m2", 2, 10), stats(2, "m1", 1, 5), stats(3, "m2", 3, 20)];
    let sum = summarize_by_model(&v);
    assert_eq!(sum.total_requests, 6);
    assert_eq!(sum.models.len(), 2);
    assert_eq!(sum.models[0].model, "m1");
    assert_eq!(sum.models[0].members, vec![1]);
    assert_eq!(sum.models[1].model, "m2");
    assert_eq!((sum.models[1].requests, sum.models[1].input_tokens), (5, 30));
    assert_eq!(sum.models[1].members, vec![0, 2]);
}

#[test]
fn report_formats() {
    assert_eq!(report_format(0, "xml"), Ok(ReportFormat::NoData));
    assert_eq!(report_format(3, "json"), Ok(ReportFormat::Json));
    assert_eq!(report_format(3, "table"), Ok(ReportFormat::Table));
    assert_eq!(report_format(3, "xml"), Err(CcsError::UnsupportedFormat));
}

#[test]
fn periods_filter_by_day() {
    let records = vec![rec(10, "a", 1, 1, 1), rec(11, "a", 1, 1, 1), rec(12, "b", 1, 1, 1), rec(9, "c", 1, 1, 1)];
    let kept = records_in_period(&records, 10, 11);
    assert_eq!(kept.iter().map(|r| r.date).collect::<Vec<_>>(), vec![10, 11]);
    let scan = ScanResult { records, total_lines: 4, skipped_lines: 0, failed_files: 0 };
    let m = CostManager::new(pricing());
    let today = m.today(&scan, 12);
    assert_eq!(today.stats.len(), 1);
    assert_eq!(today.unknown_models, vec!["b".to_string()]);
    let report = m.report(&scan);
    assert_eq!(report.stats.iter().map(|s| s.usage.date).collect::<Vec<_>>(), vec![12, 11, 10, 9]);
    assert_eq!(report.unknown_models, vec!["a".to_string(), "b".to_string(), "c".to_string()]);
}

#[test]
fn warnings_in_order() {
    let mut c = CollectResult::empty();
    assert!(c.warnings().is_empty());
    c.total_lines = 10;
    c.skipped_lines = 2;
    c.failed_files = 1;
    c.unknown_models = vec!["x".to_string()];
    let w = c.warnings();
    assert_eq!(w.len(), 3);
    assert!(matches!(w[0], CollectWarning::SkippedLines { total: 10, skipped: 2 }));
    assert!(matches!(w[1], CollectWarning::FailedFiles(1)));
    assert!(matches!(&w[2], CollectWarning::UnknownModels(ms) if ms == &vec!["x".to_string()]));
}

#[test]
fn unknown_models_of_a_period() {
    let unknown = vec!["a".to_string(), "b".to_string(), "c".to_string()];
    let v = vec![stats(1, "c", 1, 1), stats(1, "a", 1, 1)];
    assert_eq!(active_unknown_models(&unknown, &v), vec!["a".to_string(), "c".to_string()]);
}

#[test]
fn month_runs_from_the_first_of_the_month() {
    let records = vec![
        rec(day(2026, 4, 30), "a", 1, 1, 1),
        rec(day(2026, 5, 1), "a", 1, 1, 1),
        rec(day(2026, 5, 12), "b", 1, 1, 1),
        rec(day(2026, 5, 13), "c", 1, 1, 1),
    ];
    let scan = ScanResult { records, total_lines: 4, skipped_lines: 0, failed_files: 0 };
    let m = CostManager::new(pricing());
    let month = m.month(&scan, day(2026, 5, 12)).unwrap();
    assert_eq!(month.start, day(2026, 5, 1));
    assert_eq!(month.end, day(2026, 5, 12));
    assert_eq!(month.stats.len(), 2);
    assert_eq!(month.unknown_models, vec!["a".to_string(), "b".to_string()]);
    let march = m.month(&scan, day(2024, 3, 31)).unwrap();
    assert_eq!(march.start, day(2024, 3, 1));
    assert!(m.month(&scan, i32::MAX).is_none());
}

#[test]
fn month_start_arithmetic() {
    assert_eq!(month_start_from(100, 1), Some(100));
    assert_eq!(month_start_from(100, 12), Some(89));
    assert_eq!(month_start_from(100, 0), None);
    assert_eq!(month_start_from(i32::MIN, 2), None);
}

#[test]
fn summary_totals_over_all_models() {
    let v = vec![stats(1, "m2", 2, 10), stats(2, "m1", 1, 5), stats(3, "m2", 3, 20)];
    let sum = summarize_by_model(&v);
    assert_eq!(sum.total_requests, 6);
    assert_eq!(sum.total_input_tokens, 35);
    assert_eq!(sum.total_output_tokens, 0);
    assert_eq!(sum.total_cache_read_tokens, 0);
}
