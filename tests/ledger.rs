use dewey::filter::{Filter, FilterComparator, FilterError};
use dewey::ledger::{get_indexing_rules, get_stale_files, ledger_line, parse_config_line, read_ledger, LedgerEntry};
use dewey::rules::{parse_usize, IndexRuleType};

#[test]
fn filter_from_string() {
    let f = Filter::from_string("  eq   lang=rust ").unwrap();
    assert_eq!(f.comparator, FilterComparator::Equal);
    assert_eq!(f.value, "lang=rust");
    assert_eq!(Filter::from_string("ne x").unwrap().comparator, FilterComparator::NotEqual);
    assert_eq!(Filter::from_string("eq").unwrap_err(), FilterError::InvalidFormat);
    assert_eq!(Filter::from_string("eq a b").unwrap_err(), FilterError::InvalidFormat);
    assert_eq!(Filter::from_string("gt a").unwrap_err(), FilterError::InvalidComparator);
}

#[test]
fn filter_compare() {
    let eq = Filter { comparator: FilterComparator::Equal, value: "v".to_string() };
    let ne = Filter { comparator: FilterComparator::NotEqual, value: "v".to_string() };
    assert!(eq.compare("v") && !eq.compare("w"));
    assert!(!ne.compare("v") && ne.compare("w"));
}

#[test]
fn validate_rule_values() {
    assert!(IndexRuleType::MinLength.validate("128"));
    assert!(IndexRuleType::MaxLength.validate("+7"));
    assert!(!IndexRuleType::MaxLength.validate("-1"));
    assert!(!IndexRuleType::MinLength.validate("99999999999999999999999"));
    assert!(IndexRuleType::Alphanumeric.validate("TRUE"));
    assert!(IndexRuleType::Alphanumeric.validate("false"));
    assert!(!IndexRuleType::Alphanumeric.validate("yes"));
    assert!(IndexRuleType::Code.validate("Function"));
    assert!(!IndexRuleType::Split.validate(""));
    assert!(IndexRuleType::Naive.validate(""));
    assert_eq!(parse_usize("0042"), Some(42));
    assert_eq!(parse_usize("+"), None);
}

#[test]
fn rules_file() {
    let text = b"* --minlength 128 --maxlength 512 --alphanumeric true\nrs --code function\nmd --split \\n\nbad\n";
    let rules = get_indexing_rules(text);
    assert_eq!(rules.len(), 3);
    assert_eq!(rules[0].0, "*");
    assert_eq!(rules[0].1.len(), 3);
    assert_eq!(rules[1].1.len(), 1);
    assert_eq!(rules[1].1[0].rule_type, IndexRuleType::Code);
    assert_eq!(rules[2].1[0].value, "\n");
}

#[test]
fn ledger_parse_and_render() {
    let text = b"/a.rs abc rust,code\n\n/b.md def\n";
    let entries = read_ledger(text).unwrap();
    assert_eq!(entries.len(), 2);
    assert_eq!(entries[0].meta, vec!["rust".to_string(), "code".to_string()]);
    assert!(entries[1].meta.is_empty());
    assert_eq!(ledger_line(&entries[0]), b"/a.rs abc rust,code\n".to_vec());
    assert_eq!(read_ledger(b"/only-path\n").unwrap_err(), 1);
}

#[test]
fn config_lines() {
    let (p, tags) = parse_config_line(b"/repo --rust --code").unwrap();
    assert_eq!(p, "/repo");
    assert_eq!(tags, vec!["rust".to_string(), "code".to_string()]);
    assert!(parse_config_line(b"# /repo --x").is_none());
    assert!(parse_config_line(b"/repo tag").is_none());
    assert!(parse_config_line(b"   ").is_none());
}

#[test]
fn stale_files_by_digest() {
    let empty_digest = "e3b0c44298fc1c149afbf4c8996fb92427ae41e4649b934ca495991b7852b855";
    let ledger = vec![
        LedgerEntry { filepath: "/same".to_string(), hash: empty_digest.to_string(), meta: vec![] },
        LedgerEntry { filepath: "/changed".to_string(), hash: empty_digest.to_string(), meta: vec![] },
    ];
    let stale = get_stale_files(&ledger, &vec![vec![], b"x".to_vec()]);
    assert_eq!(stale.len(), 1);
    assert_eq!(stale[0].filepath, "/changed");
}

#[test]
fn read_ruleset_test() {
    let text = b"* --minlength 128 --maxlength 512 --alphanumeric true\nrs --code function\nmd --split \\n";
    let rules = get_indexing_rules(text);
    let get = |k: &str| rules.iter().find(|(e, _)| e == k).map(|(_, r)| r.len());
    assert_eq!(get("*"), Some(3));
    assert_eq!(get("rs"), Some(1));
    assert_eq!(get("md"), Some(1));
}

#[test]
fn later_rules_line_replaces_earlier() {
    let rules = get_indexing_rules(b"md --split x\nrs --code function\nmd --maxlength 10 --minlength 2\n");
    assert_eq!(rules.len(), 2);
    assert_eq!(rules[0].0, "md");
    assert_eq!(rules[0].1.len(), 2);
    assert_eq!(rules[0].1[0].rule_type, IndexRuleType::MaxLength);
}
