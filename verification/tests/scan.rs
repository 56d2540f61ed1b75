use webscraper::addresses::parse_ipv4;
use webscraper::addresses::TraversalOrder;
use webscraper::scan::classify_page;
use webscraper::scan::ScanError;
use webscraper::scan::ScanOrchestrator;

#[test]
fn malformed_bound_refuses_the_scan() {
    let err = ScanOrchestrator::new("not-an-address", "10.0.0.2", 80, TraversalOrder::Sequential)
        .expect_err("the start bound is malformed");
    assert_eq!(err, ScanError::InvalidAddress);
    let err = ScanOrchestrator::new("10.0.0.1", "10.0.0", 80, TraversalOrder::Sequential)
        .expect_err("the end bound is malformed");
    assert_eq!(err, ScanError::InvalidAddress);
}

#[test]
fn failed_fetch_yields_sentinel_not_error() {
    // A refused connection hands no page in; the record still appears, with
    // the fixed sentinel line, and the scan moves on.
    let result = classify_page(None);
    assert_eq!(result, vec!["No website found".to_string()]);

    let mut scan = ScanOrchestrator::new("10.0.0.1", "10.0.0.2", 80, TraversalOrder::Sequential)
        .expect("both bounds are well-formed");
    assert!(scan.current_target().is_some());
    scan.record_open(Vec::new(), None);
    // the pipeline proceeds to the next address
    let next = scan.current_target().expect("one address is left");
    assert_eq!(next.addr, parse_ipv4("10.0.0.2").unwrap());
    scan.record_closed();
    assert!(scan.is_finished());
    let results = scan.into_results();
    assert_eq!(results.len(), 1);
    assert_eq!(results[0].links, vec!["No website found".to_string()]);
}

#[test]
fn single_address_scan_classifies_the_fetched_page() {
    let mut scan = ScanOrchestrator::new("10.0.0.1", "10.0.0.1", 8080, TraversalOrder::Sequential)
        .expect("both bounds are well-formed");
    let target = scan.current_target().expect("one address to probe");
    assert_eq!(target.addr, parse_ipv4("10.0.0.1").unwrap());
    assert_eq!(target.port, 8080);

    let page = "<html><body><a href=\"/x\">in</a><a href=\"http://ext\">out</a></body></html>";
    scan.record_open(Vec::new(), Some(page.to_string()));
    assert!(scan.is_finished());
    assert!(scan.current_target().is_none());

    let results = scan.into_results();
    assert_eq!(results.len(), 1);
    assert_eq!(results[0].addr, parse_ipv4("10.0.0.1").unwrap());
    assert!(results[0].names.is_empty());
    assert_eq!(results[0].links, vec!["/x".to_string()]);
}

#[test]
fn closed_addresses_contribute_no_record() {
    let mut scan = ScanOrchestrator::new("10.0.0.1", "10.0.0.4", 80, TraversalOrder::Sequential)
        .expect("both bounds are well-formed");
    let mut visited: u32 = 0;
    while let Some(_target) = scan.current_target() {
        scan.record_closed();
        visited += 1;
    }
    assert_eq!(visited, 4);
    assert!(scan.is_finished());
    assert_eq!(scan.results().len(), 0);
}

#[test]
fn resolved_names_ride_along_unchanged() {
    let mut scan = ScanOrchestrator::new("10.0.0.1", "10.0.0.1", 80, TraversalOrder::Sequential)
        .expect("both bounds are well-formed");
    let names = vec!["host.example".to_string(), "alias.example".to_string()];
    scan.record_open(names.clone(), None);
    let results = scan.into_results();
    assert_eq!(results[0].names, names);
}

#[test]
fn shuffled_scan_visits_the_same_addresses() {
    let mut scan = ScanOrchestrator::new("10.0.0.1", "10.0.0.16", 80, TraversalOrder::Shuffled)
        .expect("both bounds are well-formed");
    let mut seen = Vec::new();
    while let Some(target) = scan.current_target() {
        seen.push(target.addr);
        scan.record_closed();
    }
    seen.sort();
    let start = parse_ipv4("10.0.0.1").unwrap();
    let expected: Vec<u32> = (start..=start + 15).collect();
    assert_eq!(seen, expected);
}
