use cronbird::domain::{CallbackRecord, Identity};
use cronbird::http::metrics_format::{
    civil_from_days, escape_label_value, format_prometheus, rfc3339_representable,
    timestamp_to_rfc3339, JsonMetric, JsonMetricsResponse,
};

fn create_test_records() -> Vec<(Identity, CallbackRecord)> {
    vec![
        (
            Identity::new("clickhouse-backup-prod").unwrap(),
            CallbackRecord {
                last_callback_ts: 1739456789,
                callback_count: 42,
            },
        ),
        (
            Identity::new("pg-backup-staging").unwrap(),
            CallbackRecord {
                last_callback_ts: 1739456123,
                callback_count: 18,
            },
        ),
    ]
}

#[test]
fn test_format_prometheus() {
    let records = create_test_records();
    let output = format_prometheus(&records);

    assert!(output.contains("# HELP cronbird_last_callback_timestamp_seconds"));
    assert!(output.contains("# TYPE cronbird_last_callback_timestamp_seconds gauge"));
    assert!(output.contains(
        "cronbird_last_callback_timestamp_seconds{identity=\"clickhouse-backup-prod\"} 1739456789"
    ));

    assert!(output.contains("# HELP cronbird_callback_total"));
    assert!(output.contains("# TYPE cronbird_callback_total counter"));
    assert!(output.contains("cronbird_callback_total{identity=\"clickhouse-backup-prod\"} 42"));
    assert!(output.contains("cronbird_callback_total{identity=\"pg-backup-staging\"} 18"));
}

#[test]
fn test_json_metrics_response() {
    let records = create_test_records();
    let response = JsonMetricsResponse::from_records(&records);

    assert_eq!(response.metrics.len(), 2);
    assert_eq!(response.metrics[0].identity, "clickhouse-backup-prod");
    assert_eq!(response.metrics[0].last_callback_ts, 1739456789);
    assert_eq!(response.metrics[0].callback_count, 42);
}

#[test]
fn test_timestamp_to_rfc3339() {
    // Unix epoch
    assert_eq!(timestamp_to_rfc3339(0), "1970-01-01T00:00:00Z");
    // 2026-03-01T00:00:00Z = 20513 days * 86400
    assert_eq!(timestamp_to_rfc3339(1_772_323_200), "2026-03-01T00:00:00Z");
    // Leap day: 2024-02-29T12:00:00Z = 19782 days * 86400 + 43200
    assert_eq!(timestamp_to_rfc3339(1_709_208_000), "2024-02-29T12:00:00Z");
    // Negative: 1969-12-31T23:59:59Z = -1
    assert_eq!(timestamp_to_rfc3339(-1), "1969-12-31T23:59:59Z");
}

#[test]
fn test_empty_metrics() {
    let records: Vec<(Identity, CallbackRecord)> = vec![];

    let prom_output = format_prometheus(&records);
    assert!(prom_output.contains("# HELP"));
    assert!(prom_output.contains("# TYPE"));

    let json_response = JsonMetricsResponse::from_records(&records);
    assert!(json_response.metrics.is_empty());
}

#[test]
fn test_label_escaping() {
    // Test escape_label_value with backslash and quote characters
    assert_eq!(escape_label_value("normal"), "normal");
    assert_eq!(escape_label_value("with\\backslash"), "with\\\\backslash");
    assert_eq!(escape_label_value("with\"quote"), "with\\\"quote");
    assert_eq!(escape_label_value("both\\\"chars"), "both\\\\\\\"chars");
}

#[test]
fn prometheus_output_is_exact() {
    let records = create_test_records();
    let expected = "# HELP cronbird_last_callback_timestamp_seconds Unix timestamp of the last successful callback\n\
# TYPE cronbird_last_callback_timestamp_seconds gauge\n\
cronbird_last_callback_timestamp_seconds{identity=\"clickhouse-backup-prod\"} 1739456789\n\
cronbird_last_callback_timestamp_seconds{identity=\"pg-backup-staging\"} 1739456123\n\
\n\
# HELP cronbird_callback_total Total number of callbacks received\n\
# TYPE cronbird_callback_total counter\n\
cronbird_callback_total{identity=\"clickhouse-backup-prod\"} 42\n\
cronbird_callback_total{identity=\"pg-backup-staging\"} 18\n";
    assert_eq!(format_prometheus(&records), expected);
}

#[test]
fn prometheus_negative_timestamp() {
    let records = vec![(
        Identity::new("old").unwrap(),
        CallbackRecord {
            last_callback_ts: -42,
            callback_count: 0,
        },
    )];
    let output = format_prometheus(&records);
    assert!(output.contains("cronbird_last_callback_timestamp_seconds{identity=\"old\"} -42\n"));
    assert!(output.contains("cronbird_callback_total{identity=\"old\"} 0\n"));
}

#[test]
fn empty_prometheus_output_is_the_two_headers() {
    let records: Vec<(Identity, CallbackRecord)> = vec![];
    assert_eq!(
        format_prometheus(&records),
        "# HELP cronbird_last_callback_timestamp_seconds Unix timestamp of the last successful callback\n\
# TYPE cronbird_last_callback_timestamp_seconds gauge\n\
\n\
# HELP cronbird_callback_total Total number of callbacks received\n\
# TYPE cronbird_callback_total counter\n"
    );
}

#[test]
fn json_metric_carries_rfc3339_time() {
    let id = Identity::new("job").unwrap();
    let metric = JsonMetric::from_record(&id, &CallbackRecord::new(1739456789));
    assert_eq!(metric.identity, "job");
    assert_eq!(metric.last_callback_ts, 1739456789);
    assert_eq!(metric.last_callback_rfc3339, "2025-02-13T14:26:29Z");
    assert_eq!(metric.callback_count, 1);
}

#[test]
fn rfc3339_edge_dates() {
    assert_eq!(timestamp_to_rfc3339(951_782_400), "2000-02-29T00:00:00Z");
    assert_eq!(timestamp_to_rfc3339(4_107_542_399), "2100-02-28T23:59:59Z");
    assert_eq!(timestamp_to_rfc3339(253_402_300_799), "9999-12-31T23:59:59Z");
    assert_eq!(timestamp_to_rfc3339(253_402_300_800), "10000-01-01T00:00:00Z");
    assert_eq!(timestamp_to_rfc3339(-62_135_596_800), "0001-01-01T00:00:00Z");
    assert_eq!(timestamp_to_rfc3339(-62_167_219_200), "0000-01-01T00:00:00Z");
    assert_eq!(timestamp_to_rfc3339(-62_167_219_201), "-001-12-31T23:59:59Z");
}

#[test]
fn civil_dates() {
    assert_eq!(civil_from_days(0), (1970, 1, 1));
    assert_eq!(civil_from_days(-1), (1969, 12, 31));
    assert_eq!(civil_from_days(59), (1970, 3, 1));
    assert_eq!(civil_from_days(11016), (2000, 2, 29));
    assert_eq!(civil_from_days(-719468), (0, 3, 1));
}

#[test]
fn escaping_leaves_identities_alone() {
    let id = Identity::new("pg_backup-01").unwrap();
    assert_eq!(escape_label_value(id.as_str()), "pg_backup-01");
    assert_eq!(escape_label_value(""), "");
}

#[test]
fn representable_timestamps() {
    assert!(rfc3339_representable(0));
    assert!(rfc3339_representable(-1));
    assert!(rfc3339_representable(157_680_000_000_000));
    assert!(!rfc3339_representable(i64::MAX));
    assert!(!rfc3339_representable(i64::MIN));
    let text = timestamp_to_rfc3339(157_680_000_000_000);
    assert!(text.starts_with("4998"));
    assert!(text.ends_with("Z"));
}

#[test]
fn rfc3339_four_digit_years_have_fixed_shape_and_sort() {
    let stamps = [
        -62167219200i64,
        -1,
        0,
        59,
        951782400,
        1739456789,
        253402300799,
    ];
    let texts: Vec<String> = stamps.iter().map(|t| timestamp_to_rfc3339(*t)).collect();
    for t in &texts {
        assert_eq!(t.len(), 20);
    }
    assert_eq!(texts[0], "0000-01-01T00:00:00Z");
    assert_eq!(texts[6], "9999-12-31T23:59:59Z");
    for w in texts.windows(2) {
        assert!(w[0] < w[1]);
    }
}

#[test]
fn civil_dates_far_from_the_epoch() {
    assert_eq!(civil_from_days(694_000_000_000).1 >= 1, true);
    let (y, m, d) = civil_from_days(-694_000_000_000);
    assert!(y < 0);
    assert!((1..=12).contains(&m));
    assert!((1..=31).contains(&d));
}

#[test]
fn json_metrics_of_joined_lists_are_joined() {
    let a = create_test_records();
    let b = vec![(
        Identity::new("third").unwrap(),
        CallbackRecord { last_callback_ts: 0, callback_count: 7 },
    )];
    let mut ab = a.clone();
    ab.extend(b.iter().cloned());
    let joined = JsonMetricsResponse::from_records(&ab).metrics;
    let first = JsonMetricsResponse::from_records(&a).metrics;
    let second = JsonMetricsResponse::from_records(&b).metrics;
    assert_eq!(joined.len(), first.len() + second.len());
    for (m, n) in joined.iter().zip(first.iter().chain(second.iter())) {
        assert_eq!(m.identity, n.identity);
        assert_eq!(m.last_callback_ts, n.last_callback_ts);
        assert_eq!(m.last_callback_rfc3339, n.last_callback_rfc3339);
        assert_eq!(m.callback_count, n.callback_count);
    }
}
