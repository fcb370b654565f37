use subscan::hostname::{check_subdomain, hostname, outcome};
use subscan::progress::ProgressCounter;
use subscan::scan::{scan_outcomes, scan_subdomains, Scan, ScanError};

fn labels(names: &[&str]) -> Vec<String> {
    names.iter().map(|s| s.to_string()).collect()
}

fn answers(candidates: &[String], domain: &str, oracle: &dyn Fn(&str, &str) -> bool) -> Vec<bool> {
    candidates.iter().map(|c| oracle(c, domain)).collect()
}

fn www_and_mail(label: &str, _domain: &str) -> bool {
    label == "www" || label == "mail"
}

#[test]
fn progress_counts_one_by_one() {
    let mut counter = ProgressCounter::new(3);
    assert_eq!(counter.processed(), 0);
    assert_eq!(counter.total(), 3);
    assert!(!counter.is_complete());
    counter.increment();
    assert_eq!(counter.processed(), 1);
    counter.increment();
    counter.increment();
    assert_eq!(counter.processed(), 3);
    assert_eq!(counter.total(), 3);
    assert!(counter.is_complete());
}

#[test]
fn progress_of_nothing_is_complete() {
    let counter = ProgressCounter::new(0);
    assert!(counter.is_complete());
}

#[test]
fn scan_start_has_nothing_found_or_processed() {
    let candidates = labels(&["www", "mail", "ftp", "api", "dev"]);
    let (scan, tasks) = Scan::start(&candidates, 2);
    assert!(scan.found.is_empty());
    assert_eq!(scan.progress.processed(), 0);
    assert_eq!(scan.progress.total(), 5);
    assert!(!scan.is_complete());
    assert_eq!(tasks.len(), 2);
    assert_eq!(tasks[0].labels, labels(&["www", "mail", "ftp"]));
    assert_eq!(tasks[1].labels, labels(&["api", "dev"]));
}

#[test]
fn scan_record_counts_every_attempt() {
    let candidates = labels(&["www", "nope", "mail"]);
    let (mut scan, _tasks) = Scan::start(&candidates, 1);
    scan.record(Some("www.example.com".to_string()));
    assert_eq!(scan.progress.processed(), 1);
    assert_eq!(scan.found.len(), 1);
    scan.record(None);
    assert_eq!(scan.progress.processed(), 2);
    assert_eq!(scan.found.len(), 1);
    scan.record(Some("mail.example.com".to_string()));
    assert_eq!(scan.progress.processed(), 3);
    assert!(scan.is_complete());
    let report = scan.finish().unwrap();
    assert_eq!(report.hosts, labels(&["mail.example.com", "www.example.com"]));
    assert_eq!(report.processed, 3);
    assert_eq!(report.total, 3);
}

#[test]
fn scan_finish_before_the_end_is_an_error() {
    let candidates = labels(&["www", "mail"]);
    let (mut scan, _tasks) = Scan::start(&candidates, 2);
    scan.record(Some("www.example.com".to_string()));
    assert!(!scan.is_complete());
    assert_eq!(scan.finish().err(), Some(ScanError::Incomplete));
    let (scan, _tasks) = Scan::start(&candidates, 2);
    assert_eq!(scan.finish().err(), Some(ScanError::Incomplete));
}

#[test]
fn scan_in_any_interleaving_gives_the_same_hosts() {
    let candidates = labels(&["www", "mail", "ftp", "api"]);
    let orders: [[usize; 4]; 3] = [[0, 1, 2, 3], [3, 2, 1, 0], [2, 0, 3, 1]];
    for order in orders {
        let (mut scan, _tasks) = Scan::start(&candidates, 4);
        for at in order {
            let host = hostname(&candidates[at], "example.com");
            scan.record(outcome(host, at != 2));
        }
        let report = scan.finish().unwrap();
        assert_eq!(report.hosts, labels(&["api.example.com", "mail.example.com", "www.example.com"]));
    }
}

#[test]
fn scan_outcomes_sorts_what_resolved() {
    let candidates = labels(&["www", "mail", "doesnotexist123"]);
    let outcomes = answers(&candidates, "example.com", &www_and_mail);
    assert_eq!(outcomes, vec![true, true, false]);
    let report = scan_outcomes("example.com", &candidates, &outcomes, 2).unwrap();
    assert_eq!(report.hosts, labels(&["mail.example.com", "www.example.com"]));
    assert_eq!(report.processed, 3);
    assert_eq!(report.total, 3);
}

#[test]
fn scan_outcomes_collapses_duplicates() {
    let candidates = labels(&["www", "www", "mail"]);
    let oracle = |label: &str, _domain: &str| label == "www";
    let outcomes = answers(&candidates, "example.com", &oracle);
    for workers in 0usize..6 {
        let report = scan_outcomes("example.com", &candidates, &outcomes, workers).unwrap();
        assert_eq!(report.hosts, labels(&["www.example.com"]));
        assert_eq!(report.processed, 3);
    }
}

#[test]
fn scan_outcomes_of_nothing_is_empty() {
    let candidates: Vec<String> = Vec::new();
    let outcomes: Vec<bool> = Vec::new();
    for workers in 0usize..5 {
        let report = scan_outcomes("example.com", &candidates, &outcomes, workers).unwrap();
        assert!(report.hosts.is_empty());
        assert_eq!(report.processed, 0);
        assert_eq!(report.total, 0);
    }
}

#[test]
fn scan_outcomes_with_nothing_resolved_is_empty() {
    let candidates = labels(&["a", "b", "c"]);
    let report = scan_outcomes("example.com", &candidates, &vec![false, false, false], 2).unwrap();
    assert!(report.hosts.is_empty());
    assert_eq!(report.processed, 3);
}

#[test]
fn scan_outcomes_does_not_depend_on_the_workers() {
    let names = ["www", "mail", "remote", "blog", "webmail", "server", "ns1", "ns2", "smtp", "www", "vpn", "m", "ns1"];
    let candidates = labels(&names);
    let oracle = |label: &str, _domain: &str| label.len() % 2 == 1 || label == "mail";
    let outcomes = answers(&candidates, "example.org", &oracle);
    let mut expected: Vec<String> = names
        .iter()
        .filter(|n| oracle(n, "example.org"))
        .map(|n| format!("{}.example.org", n))
        .collect();
    expected.sort();
    expected.dedup();
    assert_eq!(expected.len(), 7);
    for workers in 0usize..20 {
        let report = scan_outcomes("example.org", &candidates, &outcomes, workers).unwrap();
        assert_eq!(report.hosts, expected);
        assert_eq!(report.processed, names.len());
        assert_eq!(report.total, names.len());
    }
}

#[test]
fn scan_outcomes_does_not_depend_on_the_order_of_candidates() {
    let first = labels(&["www", "mail", "api", "dev", "ftp"]);
    let second = labels(&["ftp", "dev", "www", "api", "mail", "www", "ftp"]);
    let oracle = |label: &str, _domain: &str| label != "dev";
    let a = scan_outcomes("example.com", &first, &answers(&first, "example.com", &oracle), 2).unwrap();
    let b = scan_outcomes("example.com", &second, &answers(&second, "example.com", &oracle), 5).unwrap();
    assert_eq!(a.hosts, b.hosts);
    assert_eq!(a.hosts, labels(&["api.example.com", "ftp.example.com", "mail.example.com", "www.example.com"]));
}

#[test]
fn scan_outcomes_keeps_a_host_that_resolved_once() {
    let candidates = labels(&["www", "www"]);
    let report = scan_outcomes("example.com", &candidates, &vec![false, true], 2).unwrap();
    assert_eq!(report.hosts, labels(&["www.example.com"]));
}

#[test]
fn scan_outcomes_needs_one_outcome_per_candidate() {
    let candidates = labels(&["www", "mail"]);
    assert_eq!(scan_outcomes("example.com", &candidates, &vec![true], 2).err(), Some(ScanError::OutcomeCount));
    assert_eq!(scan_outcomes("example.com", &candidates, &vec![true, false, true], 2).err(), Some(ScanError::OutcomeCount));
    assert_eq!(scan_outcomes("example.com", &Vec::new(), &vec![true], 1).err(), Some(ScanError::OutcomeCount));
}

#[test]
fn fixed_oracle_answers_the_same_each_time() {
    let candidates = labels(&["www", "mail", "doesnotexist123"]);
    let first = answers(&candidates, "example.com", &www_and_mail);
    let second = answers(&candidates, "example.com", &www_and_mail);
    assert_eq!(first, second);
    for label in &candidates {
        assert_eq!(hostname(label, "example.com"), hostname(label, "example.com"));
        let host = hostname(label, "example.com");
        let resolved = www_and_mail(label, "example.com");
        assert_eq!(outcome(host.clone(), resolved), outcome(host, resolved));
    }
}

#[test]
fn scan_error_messages() {
    assert_eq!(ScanError::Incomplete.message(), "Scan ended before every candidate was processed");
    assert_eq!(ScanError::OutcomeCount.message(), "The number of outcomes differs from the number of candidates");
}

fn only_www_and_mail(target: &str) -> bool {
    target == "www.example.com:80" || target == "mail.example.com:80"
}

#[test]
fn check_subdomain_asks_for_the_hostname_with_the_port() {
    let asked = std::cell::RefCell::new(Vec::<String>::new());
    let lookup = |target: &str| {
        asked.borrow_mut().push(target.to_string());
        true
    };
    assert_eq!(check_subdomain("www", "example.com", &lookup), Some("www.example.com".to_string()));
    assert_eq!(asked.into_inner(), vec!["www.example.com:80".to_string()]);
}

#[test]
fn check_subdomain_finds_what_resolves() {
    assert_eq!(check_subdomain("www", "example.com", &only_www_and_mail), Some("www.example.com".to_string()));
    assert_eq!(check_subdomain("mail", "example.com", &only_www_and_mail), Some("mail.example.com".to_string()));
    assert_eq!(check_subdomain("doesnotexist123", "example.com", &only_www_and_mail), None);
    assert_eq!(check_subdomain("www", "example.org", &only_www_and_mail), None);
}

#[test]
fn check_subdomain_is_repeatable_with_a_fixed_lookup() {
    for label in ["www", "mail", "doesnotexist123", ""] {
        let first = check_subdomain(label, "example.com", &only_www_and_mail);
        let second = check_subdomain(label, "example.com", &only_www_and_mail);
        assert_eq!(first, second);
    }
}

#[test]
fn scan_subdomains_sorts_what_resolved() {
    let candidates = labels(&["www", "mail", "doesnotexist123"]);
    let found = scan_subdomains("example.com", &candidates, 2, &only_www_and_mail);
    assert_eq!(found, labels(&["mail.example.com", "www.example.com"]));
}

#[test]
fn scan_subdomains_collapses_duplicates() {
    let candidates = labels(&["www", "www", "mail"]);
    let lookup = |target: &str| target == "www.example.com:80";
    let found = scan_subdomains("example.com", &candidates, 3, &lookup);
    assert_eq!(found, labels(&["www.example.com"]));
}

#[test]
fn scan_subdomains_of_nothing_is_empty() {
    let candidates: Vec<String> = Vec::new();
    let lookup = |_target: &str| true;
    for workers in 1usize..6 {
        assert!(scan_subdomains("example.com", &candidates, workers, &lookup).is_empty());
    }
    assert!(scan_subdomains("example.com", &candidates, 0, &lookup).is_empty());
}

#[test]
fn scan_subdomains_does_not_depend_on_the_workers() {
    let candidates = labels(&["www", "mail", "ftp", "api", "dev", "www", "ns1", "ns2", "mail"]);
    let lookup = |target: &str| !target.starts_with("n") && target != "dev.example.com:80";
    let expected = labels(&["api.example.com", "ftp.example.com", "mail.example.com", "www.example.com"]);
    for workers in 0usize..12 {
        assert_eq!(scan_subdomains("example.com", &candidates, workers, &lookup), expected);
    }
}

#[test]
fn scan_subdomains_tests_every_candidate_once() {
    let candidates = labels(&["www", "mail", "ftp", "www", "api"]);
    for workers in 0usize..8 {
        let asked = std::cell::RefCell::new(Vec::<String>::new());
        let lookup = |target: &str| {
            asked.borrow_mut().push(target.to_string());
            false
        };
        assert!(scan_subdomains("example.com", &candidates, workers, &lookup).is_empty());
        let mut asked = asked.into_inner();
        asked.sort();
        assert_eq!(
            asked,
            labels(&[
                "api.example.com:80",
                "ftp.example.com:80",
                "mail.example.com:80",
                "www.example.com:80",
                "www.example.com:80"
            ])
        );
    }
}

#[test]
fn scan_subdomains_returns_the_same_order_for_the_same_candidates() {
    let first = labels(&["www", "mail", "api", "dev", "ftp"]);
    let second = labels(&["ftp", "dev", "www", "api", "mail", "www"]);
    let lookup = |target: &str| target != "dev.example.com:80";
    let a = scan_subdomains("example.com", &first, 1, &lookup);
    let b = scan_subdomains("example.com", &second, 4, &lookup);
    assert_eq!(a, b);
    let mut sorted = a.clone();
    sorted.sort();
    assert_eq!(a, sorted);
}
