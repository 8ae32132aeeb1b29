use par_bench::workers::{choose_worker_count, parse_worker_count, resolve_worker_count};

#[test]
fn unparseable_count_falls_back_to_host() {
    assert_eq!(parse_worker_count("abc"), None);
    assert_eq!(choose_worker_count(parse_worker_count("abc"), 6), 6);
    let host = num_cpus::get();
    assert_eq!(resolve_worker_count(Some("abc")), host);
    assert!(resolve_worker_count(Some("abc")) >= 1);
    assert_eq!(resolve_worker_count(None), host);
}

#[test]
fn numeric_counts_are_taken() {
    assert_eq!(parse_worker_count("4"), Some(4));
    assert_eq!(parse_worker_count("+12"), Some(12));
    assert_eq!(parse_worker_count("007"), Some(7));
    assert_eq!(resolve_worker_count(Some("3")), 3);
    assert_eq!(choose_worker_count(Some(5), 2), 5);
}

#[test]
fn malformed_counts_are_rejected() {
    assert_eq!(parse_worker_count(""), None);
    assert_eq!(parse_worker_count("0"), None);
    assert_eq!(parse_worker_count("-1"), None);
    assert_eq!(parse_worker_count(" 4"), None);
    assert_eq!(parse_worker_count("4 "), None);
    assert_eq!(parse_worker_count("+"), None);
    assert_eq!(parse_worker_count("1e3"), None);
    assert_eq!(parse_worker_count("99999999999999999999999"), None);
    assert_eq!(resolve_worker_count(Some("0")), num_cpus::get());
}
