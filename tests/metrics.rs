use concurrency::{AmapMetrics, MetricsError};

#[test]
fn counters_start_at_zero() {
    let m = AmapMetrics::new(&["a", "b"]);
    assert_eq!(m.display_string(), "a: 0\nb: 0\n");
}

#[test]
fn inc_known_key() {
    let m = AmapMetrics::new(&["req.pages.1", "req.pages.2"]);
    assert_eq!(m.inc("req.pages.2"), Ok(()));
    assert_eq!(m.inc("req.pages.2"), Ok(()));
    assert_eq!(m.inc("req.pages.1"), Ok(()));
    assert_eq!(m.display_string(), "req.pages.1: 1\nreq.pages.2: 2\n");
}

#[test]
fn inc_unknown_key_fails() {
    let m = AmapMetrics::new(&["a"]);
    assert_eq!(m.inc("b"), Err(MetricsError::KeyNotFound));
    assert_eq!(m.inc("a "), Err(MetricsError::KeyNotFound));
    assert_eq!(m.display_string(), "a: 0\n");
}

#[test]
fn duplicate_names_share_one_counter() {
    let m = AmapMetrics::new(&["x", "y", "x"]);
    m.inc("x").unwrap();
    assert_eq!(m.display_string(), "x: 1\ny: 0\n");
}

#[test]
fn clones_share_counters() {
    let m = AmapMetrics::new(&["hits"]);
    let n = m.clone();
    n.inc("hits").unwrap();
    m.inc("hits").unwrap();
    assert_eq!(m.display_string(), "hits: 2\n");
}
