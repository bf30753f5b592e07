use deadlinks::check::{broken_links, classify, is_broken_result, CheckResult, LinkStatus};
use deadlinks::extract::find_links;
use deadlinks::run::{exit_code, target_url, RunError};
use deadlinks::schedule::Scheduler;
use deadlinks::CONCURRENCY_LIMIT;

fn status_code(r: &CheckResult) -> Option<u16> {
    match r.status {
        LinkStatus::HttpError(c) => Some(c),
        _ => None,
    }
}

#[test]
fn status_200_is_reachable() {
    let r = classify("http://a/".to_string(), Ok(200));
    assert!(matches!(r.status, LinkStatus::Reachable));
    assert_eq!(r.link, "http://a/");
    assert!(!is_broken_result(&r));
}

#[test]
fn other_statuses_are_broken() {
    for code in [404u16, 500, 301, 204, 201] {
        let r = classify("http://a/".to_string(), Ok(code));
        assert_eq!(status_code(&r), Some(code));
        assert!(is_broken_result(&r));
    }
}

#[test]
fn transport_failure_is_broken() {
    let r = classify("http://b/".to_string(), Err("connection refused".to_string()));
    match &r.status {
        LinkStatus::NetworkError(reason) => assert_eq!(reason, "connection refused"),
        _ => panic!("expected a network error"),
    }
    assert!(is_broken_result(&r));
}

#[test]
fn report_holds_exactly_the_broken_links() {
    let results = vec![
        classify("http://ok/".to_string(), Ok(200)),
        classify("http://missing/".to_string(), Ok(404)),
        classify("http://down/".to_string(), Err("connection refused".to_string())),
    ];
    let broken = broken_links(results);
    assert_eq!(broken.len(), 2);
    assert_eq!(broken[0].link, "http://missing/");
    assert_eq!(status_code(&broken[0]), Some(404));
    assert_eq!(broken[1].link, "http://down/");
    assert!(matches!(&broken[1].status, LinkStatus::NetworkError(r) if r == "connection refused"));
    assert_eq!(exit_code(&broken), 1);
}

#[test]
fn page_without_links_exits_zero() {
    let links = find_links("<html><body>nothing</body></html>");
    let results: Vec<CheckResult> = links
        .into_iter()
        .map(|l| classify(l, Ok(200)))
        .collect();
    let broken = broken_links(results);
    assert!(broken.is_empty());
    assert_eq!(exit_code(&broken), 0);
}

#[test]
fn all_reachable_exits_zero() {
    let results = vec![classify("a".to_string(), Ok(200)), classify("b".to_string(), Ok(200))];
    let broken = broken_links(results);
    assert!(broken.is_empty());
    assert_eq!(exit_code(&broken), 0);
}

#[test]
fn missing_url_is_a_usage_error() {
    let e = target_url(None);
    assert!(matches!(e, Err(RunError::MissingUrl)));
    if let Err(e) = e {
        assert_eq!(e.message(), "missing argument 1 (the URL to check for dead links)");
    }
    assert!(matches!(target_url(Some("http://x/".to_string())), Ok(u) if u == "http://x/"));
    assert_eq!(RunError::Fetch("dns failure".to_string()).message(), "dns failure");
}

#[test]
fn scheduler_never_exceeds_limit() {
    let total = 25usize;
    let mut s = Scheduler::new(total);
    let mut started = Vec::new();
    let mut max_in_flight = 0usize;
    let mut round = 0usize;
    while !s.is_done() {
        while let Some(i) = s.start_next() {
            started.push(i);
            assert!(s.in_flight() <= CONCURRENCY_LIMIT);
            max_in_flight = max_in_flight.max(s.in_flight());
        }
        let batch = if round % 2 == 0 { 1 } else { 3 };
        let finishing = std::cmp::min(batch, s.in_flight());
        for _ in 0..finishing {
            s.finish_one();
        }
        round += 1;
    }
    assert_eq!(max_in_flight, CONCURRENCY_LIMIT);
    assert_eq!(started, (0..total).collect::<Vec<_>>());
}

#[test]
fn scheduler_refills_a_freed_slot_at_once() {
    let mut s = Scheduler::new(12);
    for i in 0..CONCURRENCY_LIMIT {
        assert_eq!(s.start_next(), Some(i));
    }
    assert_eq!(s.start_next(), None);
    s.finish_one();
    assert_eq!(s.start_next(), Some(CONCURRENCY_LIMIT));
    assert_eq!(s.start_next(), None);
    assert_eq!(s.in_flight(), CONCURRENCY_LIMIT);
}

#[test]
fn scheduler_with_no_checks_is_done() {
    let mut s = Scheduler::new(0);
    assert!(s.is_done());
    assert_eq!(s.start_next(), None);
}
