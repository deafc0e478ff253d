use runner::error::ConfigError;
use runner::matrix::{copy_range, distribute, get_specific_arg, ArgOption, Matrix, OptionKind};

fn strings(items: &[&str]) -> Vec<String> {
    items.iter().map(|s| s.to_string()).collect()
}

fn check(option: &ArgOption, name: &str, kind: OptionKind, scope: Option<usize>, values: &[&str]) {
    assert_eq!(option.name, name);
    assert_eq!(option.kind, kind);
    assert_eq!(option.scope, scope);
    assert_eq!(option.values, strings(values));
}

#[test]
fn get_specific_arg_reads_the_command_index() {
    assert_eq!(get_specific_arg("-0,x".to_string()), ("-x".to_string(), 0));
    assert_eq!(get_specific_arg("--12,name".to_string()), ("--name".to_string(), 12));
    assert_eq!(get_specific_arg("-007,x".to_string()), ("-x".to_string(), 7));
    assert_eq!(get_specific_arg("-3,".to_string()), ("-".to_string(), 3));
    assert_eq!(get_specific_arg("--1,a,b".to_string()), ("--a,b".to_string(), 1));
    assert_eq!(
        get_specific_arg("-2147483647,x".to_string()),
        ("-x".to_string(), 2147483647)
    );
}

#[test]
fn get_specific_arg_says_no_with_minus_one() {
    for arg in [
        "-x", "--x", "x", "", "-", "--", "-,x", "-1", "-1x,y", "1,x", "---1,x", "-2147483648,x",
        "-x,1", "-1 ,x",
    ] {
        assert_eq!(get_specific_arg(arg.to_string()), (String::new(), -1), "{}", arg);
    }
}

#[test]
fn distribute_deals_tokens_round_robin() {
    let tokens = strings(&["a", "b", "c", "d", "e"]);
    assert_eq!(distribute(&tokens, 0, 5, 2), strings(&["a c e", "b d"]));
    assert_eq!(distribute(&tokens, 0, 5, 1), strings(&["a b c d e"]));
    assert_eq!(distribute(&tokens, 0, 5, 5), strings(&["a", "b", "c", "d", "e"]));
    assert_eq!(distribute(&tokens, 0, 5, 9), strings(&["a", "b", "c", "d", "e"]));
    assert_eq!(distribute(&tokens, 1, 4, 2), strings(&["b d", "c"]));
    assert_eq!(distribute(&tokens, 2, 2, 3), Vec::<String>::new());
    assert_eq!(distribute(&tokens, 0, 5, usize::MAX), strings(&["a", "b", "c", "d", "e"]));
}

#[test]
fn distribute_joins_with_single_spaces() {
    let tokens = strings(&["", "x", "", "y"]);
    assert_eq!(distribute(&tokens, 0, 4, 2), strings(&[" ", "x y"]));
}

#[test]
fn copy_range_copies() {
    let tokens = strings(&["a", "b", "c"]);
    assert_eq!(copy_range(&tokens, 1, 3), strings(&["b", "c"]));
    assert_eq!(copy_range(&tokens, 1, 1), Vec::<String>::new());
}

#[test]
fn build_reads_flags_and_value_lists() {
    let matrix = Matrix::build(&strings(&["-v", "-x", "a", "b", "--y", "1"]), 1).unwrap();
    assert_eq!(matrix.options.len(), 3);
    assert_eq!(matrix.positional_size, 0);
    check(&matrix.options[0], "-v", OptionKind::Flag, None, &[]);
    check(&matrix.options[1], "-x", OptionKind::MultiValued, None, &["a", "b"]);
    check(&matrix.options[2], "--y", OptionKind::MultiValued, None, &["1"]);
}

#[test]
fn build_of_no_tokens_is_empty() {
    let matrix = Matrix::build(&Vec::new(), 3).unwrap();
    assert_eq!(matrix.options.len(), 0);
    assert_eq!(matrix.positional_size, 0);
}

#[test]
fn build_reads_positional_options() {
    let matrix = Matrix::build(&strings(&["-x", "a,b,c", "-y", "1,2,3", "-z", "p"]), 1).unwrap();
    assert_eq!(matrix.positional_size, 3);
    check(&matrix.options[0], "-x", OptionKind::Positional, None, &["a", "b", "c"]);
    check(&matrix.options[1], "-y", OptionKind::Positional, None, &["1", "2", "3"]);
    check(&matrix.options[2], "-z", OptionKind::MultiValued, None, &["p"]);
}

#[test]
fn build_refuses_positional_options_of_different_sizes() {
    let r = Matrix::build(&strings(&["-x", "a,b,c", "-y", "1,2"]), 1);
    assert_eq!(r.err(), Some(ConfigError::PositionalMismatch));
    let r = Matrix::build(&strings(&["-x", "a,b", "c,d,e"]), 1);
    assert_eq!(r.err(), Some(ConfigError::PositionalMismatch));
}

#[test]
fn build_takes_the_last_comma_token_of_an_option() {
    let matrix = Matrix::build(&strings(&["-x", "p", "a,b", "q", "c,d", "r"]), 1).unwrap();
    assert_eq!(matrix.positional_size, 2);
    assert_eq!(matrix.options.len(), 1);
    check(&matrix.options[0], "-x", OptionKind::Positional, None, &["c", "d"]);
}

#[test]
fn build_reads_distributed_options() {
    let matrix = Matrix::build(&strings(&["-f%", "a", "b", "c", "-g%"]), 2).unwrap();
    check(&matrix.options[0], "-f", OptionKind::Distributed, None, &["a c", "b"]);
    check(&matrix.options[1], "-g", OptionKind::Flag, None, &[]);
    let matrix = Matrix::build(&strings(&["%-%f%", "a", "b", "c"]), 5);
    // a token that does not begin with a dash declares nothing
    let matrix = matrix.unwrap();
    assert_eq!(matrix.options.len(), 1);
    check(&matrix.options[0], "", OptionKind::MultiValued, None, &["%-%f%", "a", "b", "c"]);
}

#[test]
fn build_lets_a_comma_token_win_over_distribution() {
    let matrix = Matrix::build(&strings(&["-f%", "a", "b,c"]), 2).unwrap();
    check(&matrix.options[0], "-f", OptionKind::Positional, None, &["b", "c"]);
}

#[test]
fn build_reads_command_scoped_options() {
    let matrix =
        Matrix::build(&strings(&["-0,x", "a", "--1,x", "b", "c", "-2,f", "-%3,d%", "p", "q"]), 2)
            .unwrap();
    check(&matrix.options[0], "-x", OptionKind::MultiValued, Some(0), &["a"]);
    check(&matrix.options[1], "--x", OptionKind::MultiValued, Some(1), &["b", "c"]);
    check(&matrix.options[2], "-f", OptionKind::Flag, Some(2), &[]);
    check(&matrix.options[3], "-d", OptionKind::Distributed, Some(3), &["p", "q"]);
}

#[test]
fn build_keeps_a_name_whose_index_is_too_large() {
    let matrix = Matrix::build(&strings(&["-99999999999,x", "a"]), 1).unwrap();
    check(&matrix.options[0], "-99999999999,x", OptionKind::MultiValued, None, &["a"]);
}

#[test]
fn build_gives_unprefixed_tokens_to_a_nameless_option() {
    let matrix = Matrix::build(&strings(&["a", "b,c", "d"]), 1).unwrap();
    assert_eq!(matrix.options.len(), 1);
    assert_eq!(matrix.positional_size, 0);
    check(&matrix.options[0], "", OptionKind::MultiValued, None, &["a", "b,c", "d"]);
}

#[test]
fn build_reads_options_after_unprefixed_tokens() {
    let matrix = Matrix::build(&strings(&["a", "-x", "1", "2"]), 1).unwrap();
    assert_eq!(matrix.options.len(), 2);
    check(&matrix.options[0], "", OptionKind::MultiValued, None, &["a", "-x", "1", "2"]);
    check(&matrix.options[1], "-x", OptionKind::MultiValued, None, &["1", "2"]);
}

#[test]
fn build_keeps_options_of_the_same_name_apart() {
    let matrix = Matrix::build(&strings(&["-x", "a", "-x", "b"]), 1).unwrap();
    assert_eq!(matrix.options.len(), 2);
    check(&matrix.options[0], "-x", OptionKind::MultiValued, None, &["a"]);
    check(&matrix.options[1], "-x", OptionKind::MultiValued, None, &["b"]);
}
