use subscan::hostname::{hostname, lookup_target, outcome};
use subscan::order::{compare, Rank};
use subscan::results::ResultSet;

#[test]
fn hostname_joins_with_one_dot() {
    assert_eq!(hostname("www", "example.com"), "www.example.com");
    assert_eq!(hostname("a.b", "example.org"), "a.b.example.org");
    assert_eq!(hostname("", "example.com"), ".example.com");
    assert_eq!(hostname("www", ""), "www.");
}

#[test]
fn hostname_keeps_other_scripts() {
    assert_eq!(hostname("bücher", "例え.jp"), "bücher.例え.jp");
}

#[test]
fn lookup_target_adds_the_port() {
    assert_eq!(lookup_target("www.example.com"), "www.example.com:80");
    assert_eq!(lookup_target(""), ":80");
}

#[test]
fn outcome_keeps_the_hostname_only_if_resolved() {
    assert_eq!(outcome("www.example.com".to_string(), true), Some("www.example.com".to_string()));
    assert_eq!(outcome("www.example.com".to_string(), false), None);
}

#[test]
fn compare_ranks_by_first_difference() {
    assert_eq!(compare("mail.example.com", "www.example.com"), Rank::Before);
    assert_eq!(compare("www.example.com", "mail.example.com"), Rank::After);
    assert_eq!(compare("www.example.com", "www.example.com"), Rank::Same);
    assert_eq!(compare("abc", "abd"), Rank::Before);
    assert_eq!(compare("abd", "abc"), Rank::After);
}

#[test]
fn compare_puts_a_prefix_first() {
    assert_eq!(compare("", ""), Rank::Same);
    assert_eq!(compare("", "a"), Rank::Before);
    assert_eq!(compare("a", ""), Rank::After);
    assert_eq!(compare("ns", "ns1"), Rank::Before);
    assert_eq!(compare("ns1", "ns"), Rank::After);
}

#[test]
fn compare_puts_upper_case_and_digits_first() {
    assert_eq!(compare("Z", "a"), Rank::Before);
    assert_eq!(compare("1", "A"), Rank::Before);
    assert_eq!(compare("a-b", "a.b"), Rank::Before);
}

#[test]
fn compare_agrees_with_the_order_of_strings() {
    let samples = ["", "a", "ab", "b", "B", "1", "ns1", "ns", "é", "e", "z", "日本", "日", "\u{10348}", "\u{ffff}", "www.example.com"];
    for a in samples {
        for b in samples {
            let expected = match a.cmp(b) {
                std::cmp::Ordering::Less => Rank::Before,
                std::cmp::Ordering::Equal => Rank::Same,
                std::cmp::Ordering::Greater => Rank::After,
            };
            assert_eq!(compare(a, b), expected);
        }
    }
}

#[test]
fn result_set_starts_empty() {
    let set = ResultSet::new();
    assert!(set.is_empty());
    assert_eq!(set.len(), 0);
    assert!(!set.contains("www.example.com"));
    assert_eq!(set.into_sorted(), Vec::<String>::new());
}

#[test]
fn result_set_holds_nothing_twice() {
    let mut set = ResultSet::new();
    assert!(set.insert("www.example.com".to_string()));
    assert!(!set.insert("www.example.com".to_string()));
    assert!(set.insert("mail.example.com".to_string()));
    assert!(!set.insert("mail.example.com".to_string()));
    assert_eq!(set.len(), 2);
    assert!(!set.is_empty());
    assert!(set.contains("www.example.com"));
    assert!(set.contains("mail.example.com"));
    assert!(!set.contains("ftp.example.com"));
    assert_eq!(set.into_sorted(), vec!["mail.example.com".to_string(), "www.example.com".to_string()]);
}

#[test]
fn result_set_comes_out_ascending() {
    let names = ["ns2", "www", "api", "ns", "mail", "ns1", "api", "1", "Zeta", "www"];
    let mut set = ResultSet::new();
    for name in names {
        set.insert(hostname(name, "example.com"));
    }
    let mut expected: Vec<String> = names.iter().map(|n| format!("{}.example.com", n)).collect();
    expected.sort();
    expected.dedup();
    assert_eq!(set.len(), expected.len());
    assert_eq!(set.into_sorted(), expected);
}

#[test]
fn result_set_only_grows() {
    let mut set = ResultSet::new();
    let names = ["c", "a", "b", "a", "d"];
    let mut seen: Vec<String> = Vec::new();
    for name in names {
        set.insert(name.to_string());
        seen.push(name.to_string());
        for earlier in &seen {
            assert!(set.contains(earlier));
        }
    }
    assert_eq!(set.len(), 4);
}
