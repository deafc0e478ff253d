use runner::error::ConfigError;
use runner::rules::{
    holds_all, holds_value, is_disallowed, is_excluded, is_filtered_out, parse_rules,
};

fn strings(items: &[&str]) -> Vec<String> {
    items.iter().map(|s| s.to_string()).collect()
}

fn rules(items: &[&[&str]]) -> Vec<Vec<String>> {
    items.iter().map(|r| strings(r)).collect()
}

#[test]
fn parse_rules_without_plus_gives_one_rule() {
    let mut found = Vec::new();
    assert_eq!(parse_rules("a,1", &mut found), Ok(()));
    assert_eq!(found, rules(&[&["a", "1"]]));
}

#[test]
fn parse_rules_appends_to_what_is_there() {
    let mut found = rules(&[&["x"]]);
    assert_eq!(parse_rules("a", &mut found), Ok(()));
    assert_eq!(parse_rules("b,c,d", &mut found), Ok(()));
    assert_eq!(found, rules(&[&["x"], &["a"], &["b", "c", "d"]]));
}

#[test]
fn parse_rules_expands_alternatives() {
    let mut found = Vec::new();
    assert_eq!(parse_rules("a,b+c", &mut found), Ok(()));
    assert_eq!(found, rules(&[&["a", "b"], &["a", "c"]]));
}

#[test]
fn parse_rules_expands_alternatives_in_every_slot() {
    let mut found = Vec::new();
    assert_eq!(parse_rules("a+b,1+2+3", &mut found), Ok(()));
    assert_eq!(
        found,
        rules(&[&["a", "1"], &["a", "2"], &["a", "3"], &["b", "1"], &["b", "2"], &["b", "3"]])
    );
}

#[test]
fn parse_rules_refuses_an_empty_value() {
    for token in ["", ",", "a,", ",a", "a,,b", "a+", "+a", "a,b++c", "a+,b"] {
        let mut found = rules(&[&["kept"]]);
        assert_eq!(parse_rules(token, &mut found), Err(ConfigError::EmptyRuleValue));
        assert_eq!(found, rules(&[&["kept"]]));
    }
}

#[test]
fn holds_value_compares_whole_values() {
    let values = strings(&["a", "10"]);
    assert!(holds_value(&values, &"a".to_string()));
    assert!(holds_value(&values, &"10".to_string()));
    assert!(!holds_value(&values, &"1".to_string()));
    assert!(!holds_value(&Vec::new(), &"a".to_string()));
}

#[test]
fn holds_all_ignores_order_and_extra_values() {
    let values = strings(&["a", "1", "x"]);
    assert!(holds_all(&strings(&["1", "a"]), &values));
    assert!(holds_all(&strings(&["x"]), &values));
    assert!(holds_all(&strings(&[]), &values));
    assert!(!holds_all(&strings(&["a", "2"]), &values));
}

#[test]
fn a_filter_rule_excludes_what_holds_all_its_values() {
    let filters = rules(&[&["a", "1"]]);
    assert!(is_filtered_out(&filters, &strings(&["a", "1"])));
    assert!(is_filtered_out(&filters, &strings(&["1", "z", "a"])));
    assert!(!is_filtered_out(&filters, &strings(&["a", "2"])));
    assert!(!is_filtered_out(&filters, &strings(&["b", "1"])));
    assert!(!is_filtered_out(&rules(&[]), &strings(&["a", "1"])));
}

#[test]
fn any_filter_rule_suffices() {
    let filters = rules(&[&["a", "1"], &["b"]]);
    assert!(is_filtered_out(&filters, &strings(&["b", "7"])));
    assert!(is_filtered_out(&filters, &strings(&["a", "1"])));
    assert!(!is_filtered_out(&filters, &strings(&["a", "7"])));
}

#[test]
fn an_allow_rule_excludes_where_its_first_value_lacks_company() {
    let allows = rules(&[&["a", "1"]]);
    assert!(!is_disallowed(&allows, &strings(&["a", "1"])));
    assert!(is_disallowed(&allows, &strings(&["a", "2"])));
    assert!(!is_disallowed(&allows, &strings(&["b", "2"])));
    assert!(!is_disallowed(&allows, &strings(&["b", "1"])));
}

#[test]
fn an_allow_rule_without_values_excludes_nothing() {
    let allows = rules(&[&[]]);
    assert!(!is_disallowed(&allows, &strings(&["a"])));
}

#[test]
fn a_filter_is_not_undone_by_an_allow_rule() {
    let filters = rules(&[&["a", "1"]]);
    let allows = rules(&[&["a", "1"]]);
    assert!(is_excluded(&strings(&["a", "1"]), &filters, &allows));
    assert!(is_excluded(&strings(&["a", "2"]), &filters, &allows));
    assert!(!is_excluded(&strings(&["b", "2"]), &filters, &allows));
}

#[test]
fn filtering_twice_is_filtering_once() {
    let filters = rules(&[&["a", "1"]]);
    let allows = rules(&[&["b", "2"]]);
    let candidates = rules(&[&["a", "1"], &["a", "2"], &["b", "1"], &["b", "2"]]);
    let once: Vec<Vec<String>> = candidates
        .iter()
        .filter(|c| !is_excluded(c, &filters, &allows))
        .cloned()
        .collect();
    let twice: Vec<Vec<String>> =
        once.iter().filter(|c| !is_excluded(c, &filters, &allows)).cloned().collect();
    assert_eq!(once, rules(&[&["a", "2"], &["b", "2"]]));
    assert_eq!(twice, once);
}
