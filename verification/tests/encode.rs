use promtext::collector::{MetricCollector, StringCollector};
use promtext::metric::{Metric, MetricKind, MetricValue, StatisticKind};
use promtext::num::Num;

fn encode_metric_header(namespace: Option<&str>, metric: &Metric) -> String {
    let mut s = StringCollector::new();
    s.encode_header(namespace, metric);
    s.result
}

fn encode_metric_datum(
    namespace: Option<&str>,
    buckets: &Vec<Num>,
    quantiles: &Vec<Num>,
    expired: bool,
    metric: &Metric,
) -> String {
    let mut s = StringCollector::new();
    promtext::collector::encode_metric(&mut s, namespace, buckets, quantiles, expired, metric);
    s.result
}

fn tags() -> Vec<(String, String)> {
    vec![("code".to_owned(), "200".to_owned())]
}

fn default_summary_quantiles() -> Vec<Num> {
    vec![
        Num::new(5, 1),
        Num::new(75, 2),
        Num::new(9, 1),
        Num::new(95, 2),
        Num::new(99, 2),
    ]
}

#[test]
fn test_encode_counter() {
    let metric = Metric {
        name: "hits".to_owned(),
        namespace: None,
        timestamp: None,
        tags: Some(tags()),
        kind: MetricKind::Absolute,
        value: MetricValue::Counter { value: Num::new(10, 0) },
    };

    let header = encode_metric_header(Some("vector"), &metric);
    let frame = encode_metric_datum(Some("vector"), &vec![], &vec![], false, &metric);

    assert_eq!(
        header,
        "# HELP vector_hits hits\n# TYPE vector_hits counter\n".to_owned()
    );
    assert_eq!(frame, "vector_hits{code=\"200\"} 10\n".to_owned());
}

#[test]
fn test_encode_gauge() {
    let metric = Metric {
        name: "temperature".to_owned(),
        namespace: None,
        timestamp: None,
        tags: Some(tags()),
        kind: MetricKind::Absolute,
        value: MetricValue::Gauge { value: Num::new(-11, 1) },
    };

    let header = encode_metric_header(Some("vector"), &metric);
    let frame = encode_metric_datum(Some("vector"), &vec![], &vec![], false, &metric);

    assert_eq!(
        header,
        "# HELP vector_temperature temperature\n# TYPE vector_temperature gauge\n".to_owned()
    );
    assert_eq!(frame, "vector_temperature{code=\"200\"} -1.1\n".to_owned());
}

#[test]
fn test_encode_set() {
    let metric = Metric {
        name: "users".to_owned(),
        namespace: None,
        timestamp: None,
        tags: None,
        kind: MetricKind::Absolute,
        value: MetricValue::StringSet { values: vec!["foo".to_owned()] },
    };

    let header = encode_metric_header(None, &metric);
    let frame = encode_metric_datum(None, &vec![], &vec![], false, &metric);

    assert_eq!(header, "# HELP users users\n# TYPE users gauge\n".to_owned());
    assert_eq!(frame, "users 1\n".to_owned());
}

#[test]
fn test_encode_expired_set() {
    let metric = Metric {
        name: "users".to_owned(),
        namespace: None,
        timestamp: None,
        tags: None,
        kind: MetricKind::Absolute,
        value: MetricValue::StringSet { values: vec!["foo".to_owned()] },
    };

    let header = encode_metric_header(None, &metric);
    let frame = encode_metric_datum(None, &vec![], &vec![], true, &metric);

    assert_eq!(header, "# HELP users users\n# TYPE users gauge\n".to_owned());
    assert_eq!(frame, "users 0\n".to_owned());
}

#[test]
fn test_encode_distribution() {
    let metric = Metric {
        name: "requests".to_owned(),
        namespace: None,
        timestamp: None,
        tags: None,
        kind: MetricKind::Absolute,
        value: MetricValue::Distribution {
            values: vec![Num::new(1, 0), Num::new(2, 0), Num::new(3, 0)],
            sample_rates: vec![3, 3, 2],
            statistic: StatisticKind::Histogram,
        },
    };

    let buckets = vec![Num::new(0, 0), Num::new(25, 1), Num::new(5, 0)];
    let header = encode_metric_header(None, &metric);
    let frame = encode_metric_datum(None, &buckets, &vec![], false, &metric);

    assert_eq!(
        header,
        "# HELP requests requests\n# TYPE requests histogram\n".to_owned()
    );
    assert_eq!(frame, "requests_bucket{le=\"0\"} 0\nrequests_bucket{le=\"2.5\"} 6\nrequests_bucket{le=\"5\"} 8\nrequests_bucket{le=\"+Inf\"} 8\nrequests_sum 15\nrequests_count 8\n".to_owned());
}

#[test]
fn test_encode_histogram() {
    let metric = Metric {
        name: "requests".to_owned(),
        namespace: None,
        timestamp: None,
        tags: None,
        kind: MetricKind::Absolute,
        value: MetricValue::AggregatedHistogram {
            buckets: vec![Num::new(1, 0), Num::new(21, 1), Num::new(3, 0)],
            counts: vec![1, 2, 3],
            count: 6,
            sum: Num::new(125, 1),
        },
    };

    let header = encode_metric_header(None, &metric);
    let frame = encode_metric_datum(None, &vec![], &vec![], false, &metric);

    assert_eq!(
        header,
        "# HELP requests requests\n# TYPE requests histogram\n".to_owned()
    );
    assert_eq!(frame, "requests_bucket{le=\"1\"} 1\nrequests_bucket{le=\"2.1\"} 2\nrequests_bucket{le=\"3\"} 3\nrequests_bucket{le=\"+Inf\"} 6\nrequests_sum 12.5\nrequests_count 6\n".to_owned());
}

#[test]
fn test_encode_summary() {
    let metric = Metric {
        name: "requests".to_owned(),
        namespace: None,
        timestamp: None,
        tags: Some(tags()),
        kind: MetricKind::Absolute,
        value: MetricValue::AggregatedSummary {
            quantiles: vec![Num::new(1, 2), Num::new(5, 1), Num::new(99, 2)],
            values: vec![Num::new(15, 1), Num::new(2, 0), Num::new(3, 0)],
            count: 6,
            sum: Num::new(12, 0),
        },
    };

    let header = encode_metric_header(None, &metric);
    let frame = encode_metric_datum(None, &vec![], &vec![], false, &metric);

    assert_eq!(
        header,
        "# HELP requests requests\n# TYPE requests summary\n".to_owned()
    );
    assert_eq!(frame, "requests{code=\"200\",quantile=\"0.01\"} 1.5\nrequests{code=\"200\",quantile=\"0.5\"} 2\nrequests{code=\"200\",quantile=\"0.99\"} 3\nrequests_sum{code=\"200\"} 12\nrequests_count{code=\"200\"} 6\n".to_owned());
}

#[test]
fn test_encode_distribution_summary() {
    let metric = Metric {
        name: "requests".to_owned(),
        namespace: None,
        timestamp: None,
        tags: Some(tags()),
        kind: MetricKind::Absolute,
        value: MetricValue::Distribution {
            values: vec![Num::new(1, 0), Num::new(2, 0), Num::new(3, 0)],
            sample_rates: vec![3, 3, 2],
            statistic: StatisticKind::Summary,
        },
    };

    let header = encode_metric_header(None, &metric);
    let frame = encode_metric_datum(
        None,
        &vec![],
        &default_summary_quantiles(),
        false,
        &metric,
    );

    assert_eq!(
        header,
        "# HELP requests requests\n# TYPE requests summary\n".to_owned()
    );
    assert_eq!(frame, "requests{code=\"200\",quantile=\"0.5\"} 2\nrequests{code=\"200\",quantile=\"0.75\"} 2\nrequests{code=\"200\",quantile=\"0.9\"} 3\nrequests{code=\"200\",quantile=\"0.95\"} 3\nrequests{code=\"200\",quantile=\"0.99\"} 3\nrequests_sum{code=\"200\"} 15\nrequests_count{code=\"200\"} 8\nrequests_min{code=\"200\"} 1\nrequests_max{code=\"200\"} 3\nrequests_avg{code=\"200\"} 1.875\n".to_owned());
}
