use promtext::collector::{MetricCollector, StringCollector};
use promtext::events::OpKind;
use promtext::metric::{Metric, MetricKind, MetricValue, StatisticKind};
use promtext::num::Num;
use promtext::render::encode_namespace;

fn datum(
    namespace: Option<&str>,
    buckets: &Vec<Num>,
    quantiles: &Vec<Num>,
    expired: bool,
    metric: &Metric,
) -> String {
    let mut s = StringCollector::new();
    promtext::collector::encode_metric(&mut s, namespace, buckets, quantiles, expired, metric);
    s.result
}

fn counter_metric(tags: Option<Vec<(String, String)>>, kind: MetricKind) -> Metric {
    Metric {
        name: "hits".to_owned(),
        namespace: None,
        timestamp: None,
        tags,
        kind,
        value: MetricValue::Counter { value: Num::new(7, 0) },
    }
}

#[test]
fn incremental_metric_emits_nothing() {
    let metric = counter_metric(Some(vec![("a".to_owned(), "b".to_owned())]), MetricKind::Incremental);
    assert_eq!(datum(Some("ns"), &vec![], &vec![], false, &metric), "".to_owned());
}

#[test]
fn tag_order_does_not_change_output() {
    let t1 = vec![
        ("zone".to_owned(), "eu".to_owned()),
        ("code".to_owned(), "200".to_owned()),
        ("host".to_owned(), "a".to_owned()),
    ];
    let t2 = vec![
        ("host".to_owned(), "a".to_owned()),
        ("zone".to_owned(), "eu".to_owned()),
        ("code".to_owned(), "200".to_owned()),
    ];
    let m1 = counter_metric(Some(t1), MetricKind::Absolute);
    let m2 = counter_metric(Some(t2), MetricKind::Absolute);
    let out1 = datum(None, &vec![], &vec![], false, &m1);
    let out2 = datum(None, &vec![], &vec![], false, &m2);
    assert_eq!(out1, out2);
    assert_eq!(out1, "hits{code=\"200\",host=\"a\",zone=\"eu\"} 7\n".to_owned());
}

#[test]
fn reencoding_is_byte_identical() {
    let metric = counter_metric(Some(vec![("code".to_owned(), "200".to_owned())]), MetricKind::Absolute);
    let out1 = datum(Some("vector"), &vec![], &vec![], false, &metric);
    let out2 = datum(Some("vector"), &vec![], &vec![], false, &metric);
    assert_eq!(out1, out2);
}

#[test]
fn tags_sort_by_rendered_string_not_key() {
    // The rendered parts are compared, so the quote after the key takes part
    // in the ordering.
    let t = vec![
        ("b".to_owned(), "1".to_owned()),
        ("a".to_owned(), "2".to_owned()),
    ];
    let metric = counter_metric(Some(t), MetricKind::Absolute);
    assert_eq!(
        datum(None, &vec![], &vec![], false, &metric),
        "hits{a=\"2\",b=\"1\"} 7\n".to_owned()
    );
}

#[test]
fn empty_tag_map_renders_empty_braces() {
    let metric = counter_metric(Some(vec![]), MetricKind::Absolute);
    assert_eq!(datum(None, &vec![], &vec![], false, &metric), "hits{} 7\n".to_owned());
}

#[test]
fn extra_tag_without_tag_map() {
    let metric = Metric {
        name: "requests".to_owned(),
        namespace: None,
        timestamp: None,
        tags: None,
        kind: MetricKind::Absolute,
        value: MetricValue::AggregatedSummary {
            quantiles: vec![Num::new(5, 1)],
            values: vec![Num::new(2, 0)],
            count: 1,
            sum: Num::new(2, 0),
        },
    };
    assert_eq!(
        datum(None, &vec![], &vec![], false, &metric),
        "requests{quantile=\"0.5\"} 2\nrequests_sum 2\nrequests_count 1\n".to_owned()
    );
}

#[test]
fn number_formatting_collapses_integral_values() {
    assert_eq!(Num::new(10, 0).to_text(), "10".to_owned());
    assert_eq!(Num::new(100, 1).to_text(), "10".to_owned());
    assert_eq!(Num::new(10000, 3).to_text(), "10".to_owned());
    assert_eq!(Num::new(0, 5).to_text(), "0".to_owned());
}

#[test]
fn number_formatting_preserves_fractions() {
    assert_eq!(Num::new(-11, 1).to_text(), "-1.1".to_owned());
    assert_eq!(Num::new(1, 2).to_text(), "0.01".to_owned());
    assert_eq!(Num::new(-1, 3).to_text(), "-0.001".to_owned());
    assert_eq!(Num::new(1875, 3).to_text(), "1.875".to_owned());
    assert_eq!(Num::new(2500, 3).to_text(), "2.5".to_owned());
}

#[test]
fn summary_with_no_weight_emits_zero_frame() {
    let metric = Metric {
        name: "lat".to_owned(),
        namespace: None,
        timestamp: None,
        tags: None,
        kind: MetricKind::Absolute,
        value: MetricValue::Distribution {
            values: vec![Num::new(1, 0)],
            sample_rates: vec![0],
            statistic: StatisticKind::Summary,
        },
    };
    assert_eq!(
        datum(None, &vec![], &vec![Num::new(5, 1)], false, &metric),
        "lat_sum 0\nlat_count 0\n".to_owned()
    );
}

#[test]
fn bucket_values_are_cumulative() {
    let metric = Metric {
        name: "lat".to_owned(),
        namespace: None,
        timestamp: None,
        tags: None,
        kind: MetricKind::Absolute,
        value: MetricValue::Distribution {
            values: vec![Num::new(4, 0), Num::new(1, 0), Num::new(9, 0)],
            sample_rates: vec![2, 5, 1],
            statistic: StatisticKind::Histogram,
        },
    };
    let buckets = vec![Num::new(1, 0), Num::new(5, 0), Num::new(10, 0)];
    assert_eq!(
        datum(None, &buckets, &vec![], false, &metric),
        "lat_bucket{le=\"1\"} 5\nlat_bucket{le=\"5\"} 7\nlat_bucket{le=\"10\"} 8\nlat_bucket{le=\"+Inf\"} 8\nlat_sum 22\nlat_count 8\n"
            .to_owned()
    );
}

#[test]
fn set_cardinality_counts_members() {
    let metric = Metric {
        name: "users".to_owned(),
        namespace: None,
        timestamp: None,
        tags: None,
        kind: MetricKind::Absolute,
        value: MetricValue::StringSet {
            values: vec!["a".to_owned(), "b".to_owned(), "c".to_owned()],
        },
    };
    assert_eq!(datum(None, &vec![], &vec![], false, &metric), "users 3\n".to_owned());
}

#[test]
fn namespace_composition() {
    assert_eq!(encode_namespace(Some("vector"), '_', "hits"), "vector_hits".to_owned());
    assert_eq!(encode_namespace(Some(""), '_', "hits"), "hits".to_owned());
    assert_eq!(encode_namespace(None, '_', "hits"), "hits".to_owned());
}

#[test]
fn op_kind_labels() {
    assert_eq!(OpKind::ItemAdded.to_str(), "item_added");
    assert_eq!(OpKind::ItemDeleted.to_str(), "item_deleted");
    assert_eq!(OpKind::ItemUpdated.to_str(), "item_updated");
    assert_eq!(OpKind::MaintenancePerformed.to_str(), "maintenance_performed");
    assert_eq!(OpKind::MaintenanceRequested.to_str(), "maintenance_requested");
    assert_eq!(OpKind::Resynced.to_str(), "resynced");
}

#[test]
fn fractional_weighted_sum() {
    // Sums are carried at the common scale of the sample values.
    let metric = Metric {
        name: "lat".to_owned(),
        namespace: None,
        timestamp: None,
        tags: None,
        kind: MetricKind::Absolute,
        value: MetricValue::Distribution {
            values: vec![Num::new(15, 1), Num::new(25, 2)],
            sample_rates: vec![2, 4],
            statistic: StatisticKind::Histogram,
        },
    };
    let buckets = vec![Num::new(1, 0)];
    // sum = 1.5*2 + 0.25*4 = 4; only 0.25 falls at or under 1.
    assert_eq!(
        datum(None, &buckets, &vec![], false, &metric),
        "lat_bucket{le=\"1\"} 4\nlat_bucket{le=\"+Inf\"} 6\nlat_sum 4\nlat_count 6\n".to_owned()
    );
}
