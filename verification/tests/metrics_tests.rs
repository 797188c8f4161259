use shabti::metrics::EngineMetrics;

#[test]
fn metrics_initial_state() {
    let metrics = EngineMetrics::new();

    assert_eq!(metrics.store_count(), 0);
    assert_eq!(metrics.search_count(), 0);
    assert_eq!(metrics.error_count(), 0);
    assert_eq!(metrics.total_requests(), 0);
}

#[test]
fn metrics_increment_store() {
    let mut metrics = EngineMetrics::new();

    metrics.record_store();
    metrics.record_store();
    metrics.record_store();

    assert_eq!(metrics.store_count(), 3);
    assert_eq!(metrics.total_requests(), 3);
}

#[test]
fn metrics_increment_search() {
    let mut metrics = EngineMetrics::new();

    metrics.record_search(15);
    metrics.record_search(25);

    assert_eq!(metrics.search_count(), 2);
    assert_eq!(metrics.total_requests(), 2);
}

#[test]
fn metrics_increment_errors() {
    let mut metrics = EngineMetrics::new();

    metrics.record_error();
    metrics.record_error();

    assert_eq!(metrics.error_count(), 2);
}

#[test]
fn metrics_avg_search_latency() {
    let mut metrics = EngineMetrics::new();

    metrics.record_search(10);
    metrics.record_search(20);
    metrics.record_search(30);

    assert_eq!(metrics.avg_search_latency_ms(), 20);
}

#[test]
fn metrics_avg_search_latency_no_searches() {
    let metrics = EngineMetrics::new();
    assert_eq!(metrics.avg_search_latency_ms(), 0);
}

#[test]
fn metrics_reset() {
    let mut metrics = EngineMetrics::new();
    metrics.record_store();
    metrics.record_search(10);
    metrics.record_error();

    metrics.reset();

    assert_eq!(metrics.store_count(), 0);
    assert_eq!(metrics.search_count(), 0);
    assert_eq!(metrics.error_count(), 0);
    assert_eq!(metrics.avg_search_latency_ms(), 0);
}

#[test]
fn metrics_errors_do_not_count_as_requests() {
    let mut metrics = EngineMetrics::new();
    metrics.record_store();
    metrics.record_search(42);
    metrics.record_error();

    assert_eq!(metrics.total_requests(), 2);
    assert_eq!(metrics.avg_search_latency_ms(), 42);
}

#[test]
fn metrics_average_rounds_down() {
    let mut metrics = EngineMetrics::new();
    metrics.record_search(10);
    metrics.record_search(11);
    assert_eq!(metrics.avg_search_latency_ms(), 10);
}
