use minikv::metrics::{Counter, Gauge, RequestCounters};

#[test]
fn test_counter() {
    let mut counter = Counter::new();

    assert_eq!(counter.get(), 0);
    counter.inc();
    assert_eq!(counter.get(), 1);
    counter.add(5);
    assert_eq!(counter.get(), 6);
}

#[test]
fn test_gauge() {
    let mut gauge = Gauge::new();

    assert_eq!(gauge.get(), 0);
    gauge.set(10);
    assert_eq!(gauge.get(), 10);
    gauge.inc();
    assert_eq!(gauge.get(), 11);
    gauge.dec();
    assert_eq!(gauge.get(), 10);
}

#[test]
fn request_counters_count_per_endpoint_and_overall() {
    let mut registry = RequestCounters::new();

    registry.record_request("/test", true);
    registry.record_request("/test", false);

    assert_eq!(registry.total_requests.get(), 2);
    assert_eq!(registry.total_errors.get(), 1);

    let counts = registry.endpoint_counts();
    assert_eq!(counts, vec![("/test".to_string(), 2, 1, 1)]);
}

#[test]
fn counters_wrap_around_like_atomics() {
    let mut c = Counter::new();
    c.add(u64::MAX);
    c.inc();
    assert_eq!(c.get(), 0);
    let mut g = Gauge::new();
    g.dec();
    assert_eq!(g.get(), u64::MAX);
    g.inc();
    assert_eq!(g.get(), 0);
}

#[test]
fn request_counters_render_as_prometheus_text() {
    let mut m = RequestCounters::new();
    m.record_request("/a", true);
    m.record_request("/b", false);
    m.record_request("/a", false);
    m.total_bytes_read.add(100);
    let text = m.to_prometheus_counters(42);
    assert!(text.starts_with("# HELP minikv_requests_total Total number of requests\n# TYPE minikv_requests_total counter\nminikv_requests_total 3\n"));
    assert!(text.contains("minikv_errors_total 2\n"));
    assert!(text.contains("minikv_bytes_read_total 100\n"));
    assert!(text.contains("minikv_uptime_seconds 42\n"));
    assert!(text.contains("minikv_endpoint_requests_total{path=\"/a\"} 2\nminikv_endpoint_requests_total{path=\"/b\"} 1\n"));
    assert!(text.ends_with("minikv_endpoint_errors_total{path=\"/a\"} 1\nminikv_endpoint_errors_total{path=\"/b\"} 1\n"));
    let counts = m.endpoint_counts();
    assert_eq!(counts, vec![("/a".to_string(), 2, 1, 1), ("/b".to_string(), 1, 0, 1)]);
}
