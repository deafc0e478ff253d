use runner::error::ConfigError;
use runner::generate::{common_length, generate, name_row, select};
use runner::matrix::Matrix;

fn strings(items: &[&str]) -> Vec<String> {
    items.iter().map(|s| s.to_string()).collect()
}

fn rules(items: &[&[&str]]) -> Vec<Vec<String>> {
    items.iter().map(|r| strings(r)).collect()
}

fn pairs(items: &[(&str, &str)]) -> Vec<(String, String)> {
    items.iter().map(|(n, v)| (n.to_string(), v.to_string())).collect()
}

fn matrix(tail: &[&str]) -> Matrix {
    Matrix::build(&strings(tail), 1).unwrap()
}

fn none() -> Vec<Vec<String>> {
    Vec::new()
}

#[test]
fn select_sorts_the_options_by_their_use() {
    let m = matrix(&["-v", "-x", "a", "b", "-p", "1,2", "-y", "c", "-q", "3,4", "-w"]);
    let chosen = select(&m, 0);
    assert_eq!(chosen.names, strings(&["-x", "-y"]));
    assert_eq!(chosen.lists, rules(&[&["a", "b"], &["c"]]));
    assert_eq!(chosen.aligned_names, strings(&["-p", "-q"]));
    assert_eq!(chosen.aligned_lists, rules(&[&["1", "2"], &["3", "4"]]));
    assert_eq!(chosen.flags, strings(&["-v", "-w"]));
}

#[test]
fn select_leaves_out_the_options_of_other_commands() {
    let m = matrix(&["-0,x", "a", "-1,y", "b", "-z", "c", "-1,f"]);
    let first = select(&m, 0);
    assert_eq!(first.names, strings(&["-x", "-z"]));
    assert_eq!(first.flags, Vec::<String>::new());
    let second = select(&m, 1);
    assert_eq!(second.names, strings(&["-y", "-z"]));
    assert_eq!(second.flags, strings(&["-f"]));
    let third = select(&m, 2);
    assert_eq!(third.names, strings(&["-z"]));
}

#[test]
fn common_length_is_the_length_of_the_longer_lists() {
    assert_eq!(common_length(&rules(&[&["a", "b"], &["1"], &["x", "y"]])), Some(2));
    assert_eq!(common_length(&rules(&[&["a"], &["1"]])), Some(1));
    assert_eq!(common_length(&rules(&[])), Some(1));
    assert_eq!(common_length(&rules(&[&["a", "b"], &["1", "2", "3"]])), None);
}

#[test]
fn name_row_pairs_names_with_values_and_adds_flags() {
    assert_eq!(
        name_row(&strings(&["-x", "-y"]), &strings(&["a", "1"]), &strings(&["-v"])),
        pairs(&[("-x", "a"), ("-y", "1"), ("-v", "")])
    );
    assert_eq!(name_row(&strings(&[]), &strings(&[]), &strings(&[])), pairs(&[]));
}

#[test]
fn product_mode_combines_every_value_with_every_other() {
    let m = matrix(&["-x", "a", "b", "-y", "1", "2"]);
    let found = generate(&m, 0, false, &none(), &none()).unwrap();
    assert_eq!(
        found,
        vec![
            pairs(&[("-x", "a"), ("-y", "1")]),
            pairs(&[("-x", "a"), ("-y", "2")]),
            pairs(&[("-x", "b"), ("-y", "1")]),
            pairs(&[("-x", "b"), ("-y", "2")]),
        ]
    );
}

#[test]
fn product_mode_has_the_product_of_the_counts() {
    let m = matrix(&["-x", "a", "b", "c", "-f", "-y", "1", "2", "-z", "p", "q", "r", "s"]);
    let found = generate(&m, 0, false, &none(), &none()).unwrap();
    assert_eq!(found.len(), 3 * 2 * 4);
    for combination in &found {
        assert_eq!(combination.len(), 4);
        assert_eq!(combination[3], ("-f".to_string(), String::new()));
    }
}

#[test]
fn ordered_mode_takes_values_position_for_position() {
    let m = matrix(&["-x", "a", "b", "-y", "1", "2"]);
    let found = generate(&m, 0, true, &none(), &none()).unwrap();
    assert_eq!(
        found,
        vec![pairs(&[("-x", "a"), ("-y", "1")]), pairs(&[("-x", "b"), ("-y", "2")])]
    );
}

#[test]
fn ordered_mode_recycles_single_values() {
    let m = matrix(&["-s", "one", "-x", "a", "b", "c", "-f", "-y", "1,2,3"]);
    let found = generate(&m, 0, true, &none(), &none()).unwrap();
    assert_eq!(
        found,
        vec![
            pairs(&[("-s", "one"), ("-x", "a"), ("-y", "1"), ("-f", "")]),
            pairs(&[("-s", "one"), ("-x", "b"), ("-y", "2"), ("-f", "")]),
            pairs(&[("-s", "one"), ("-x", "c"), ("-y", "3"), ("-f", "")]),
        ]
    );
}

#[test]
fn ordered_mode_refuses_different_counts() {
    let m = matrix(&["-x", "a", "b", "-y", "1", "2", "3"]);
    assert_eq!(generate(&m, 0, true, &none(), &none()), Err(ConfigError::OrderedMismatch));
    assert!(generate(&m, 0, false, &none(), &none()).is_ok());
}

#[test]
fn ordered_mode_of_single_values_gives_one_combination() {
    let m = matrix(&["-x", "a", "-y", "1"]);
    let found = generate(&m, 0, true, &none(), &none()).unwrap();
    assert_eq!(found, vec![pairs(&[("-x", "a"), ("-y", "1")])]);
}

#[test]
fn positional_options_are_zipped() {
    let m = matrix(&["-x", "a,b", "-y", "1,2"]);
    let found = generate(&m, 0, false, &none(), &none()).unwrap();
    assert_eq!(
        found,
        vec![pairs(&[("-x", "a"), ("-y", "1")]), pairs(&[("-x", "b"), ("-y", "2")])]
    );
}

#[test]
fn positional_rows_are_joined_to_every_product_row() {
    let m = matrix(&["-p", "1,2", "-x", "a", "b", "-q", "3,4"]);
    let found = generate(&m, 0, false, &none(), &none()).unwrap();
    assert_eq!(
        found,
        vec![
            pairs(&[("-x", "a"), ("-p", "1"), ("-q", "3")]),
            pairs(&[("-x", "a"), ("-p", "2"), ("-q", "4")]),
            pairs(&[("-x", "b"), ("-p", "1"), ("-q", "3")]),
            pairs(&[("-x", "b"), ("-p", "2"), ("-q", "4")]),
        ]
    );
}

#[test]
fn without_options_there_is_one_empty_combination() {
    let m = matrix(&[]);
    assert_eq!(generate(&m, 0, false, &none(), &none()).unwrap(), vec![pairs(&[])]);
    assert_eq!(generate(&m, 0, true, &none(), &none()).unwrap(), vec![pairs(&[])]);
}

#[test]
fn flags_alone_give_one_combination() {
    let m = matrix(&["-v", "--quiet"]);
    assert_eq!(
        generate(&m, 0, false, &none(), &none()).unwrap(),
        vec![pairs(&[("-v", ""), ("--quiet", "")])]
    );
}

#[test]
fn a_filter_rule_drops_the_combinations_that_hold_it() {
    let m = matrix(&["-x", "a", "b", "-y", "1", "2"]);
    let found = generate(&m, 0, false, &rules(&[&["a", "1"]]), &none()).unwrap();
    assert_eq!(
        found,
        vec![
            pairs(&[("-x", "a"), ("-y", "2")]),
            pairs(&[("-x", "b"), ("-y", "1")]),
            pairs(&[("-x", "b"), ("-y", "2")]),
        ]
    );
}

#[test]
fn an_allow_rule_drops_the_combinations_that_break_it() {
    let m = matrix(&["-x", "a", "b", "-y", "1", "2"]);
    let found = generate(&m, 0, false, &none(), &rules(&[&["a", "1"]])).unwrap();
    assert_eq!(
        found,
        vec![
            pairs(&[("-x", "a"), ("-y", "1")]),
            pairs(&[("-x", "b"), ("-y", "1")]),
            pairs(&[("-x", "b"), ("-y", "2")]),
        ]
    );
}

#[test]
fn rules_can_drop_everything() {
    let m = matrix(&["-x", "a", "b"]);
    let found = generate(&m, 0, false, &rules(&[&["a"], &["b"]]), &none()).unwrap();
    assert_eq!(found, Vec::<Vec<(String, String)>>::new());
}

#[test]
fn each_command_sees_its_own_options() {
    let m = matrix(&["-0,x", "a", "b", "-1,x", "c", "-y", "1"]);
    assert_eq!(
        generate(&m, 0, false, &none(), &none()).unwrap(),
        vec![pairs(&[("-x", "a"), ("-y", "1")]), pairs(&[("-x", "b"), ("-y", "1")])]
    );
    assert_eq!(
        generate(&m, 1, false, &none(), &none()).unwrap(),
        vec![pairs(&[("-x", "c"), ("-y", "1")])]
    );
    assert_eq!(
        generate(&m, 2, false, &none(), &none()).unwrap(),
        vec![pairs(&[("-y", "1")])]
    );
}

#[test]
fn the_nameless_option_gives_one_combination_per_token() {
    let m = matrix(&["a.txt", "b.txt"]);
    assert_eq!(
        generate(&m, 0, false, &none(), &none()).unwrap(),
        vec![pairs(&[("", "a.txt")]), pairs(&[("", "b.txt")])]
    );
}
