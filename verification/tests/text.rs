use runner::text::{
    chars_of, has_char, read_number, split_at_char, starts_with_dash, strip_char, substring,
};

#[test]
fn chars_of_lists_the_characters() {
    assert_eq!(chars_of("a,b"), vec!['a', ',', 'b']);
    assert_eq!(chars_of(""), Vec::<char>::new());
    assert_eq!(chars_of("é1"), vec!['é', '1']);
}

#[test]
fn substring_counts_characters_not_bytes() {
    assert_eq!(substring("héllo", 1, 3), "él");
    assert_eq!(substring("abc", 0, 0), "");
    assert_eq!(substring("abc", 0, 3), "abc");
}

#[test]
fn has_char_finds_a_character() {
    assert!(has_char("a,b", ','));
    assert!(!has_char("ab", ','));
    assert!(!has_char("", ','));
}

#[test]
fn starts_with_dash_looks_at_the_first_character() {
    assert!(starts_with_dash("-x"));
    assert!(starts_with_dash("--"));
    assert!(starts_with_dash("-"));
    assert!(!starts_with_dash("x-"));
    assert!(!starts_with_dash(""));
}

#[test]
fn split_at_char_cuts_at_every_separator() {
    assert_eq!(split_at_char("a,b,c", ','), vec!["a", "b", "c"]);
    assert_eq!(split_at_char("abc", ','), vec!["abc"]);
    assert_eq!(split_at_char("", ','), vec![""]);
    assert_eq!(split_at_char(",a,,b,", ','), vec!["", "a", "", "b", ""]);
    assert_eq!(split_at_char("x+y", '+'), vec!["x", "y"]);
}

#[test]
fn split_at_char_agrees_with_std() {
    for s in ["a,b", ",", ",,", "a", "", "ab,,cd,e", "é,ü"] {
        let want: Vec<String> = s.split(',').map(|p| p.to_string()).collect();
        assert_eq!(split_at_char(s, ','), want);
    }
}

#[test]
fn strip_char_removes_every_occurrence() {
    assert_eq!(strip_char("-x%", '%'), "-x");
    assert_eq!(strip_char("%-%x%%", '%'), "-x");
    assert_eq!(strip_char("-x", '%'), "-x");
    assert_eq!(strip_char("%", '%'), "");
    assert_eq!(strip_char("", '%'), "");
}

#[test]
fn read_number_reads_decimal_digits() {
    let chars = chars_of("-12,x");
    assert_eq!(read_number(&chars, 1, 3, 100), Some(12));
    assert_eq!(read_number(&chars, 1, 2, 100), Some(1));
    assert_eq!(read_number(&chars, 1, 1, 100), None);
    assert_eq!(read_number(&chars, 0, 3, 100), None);
    assert_eq!(read_number(&chars, 1, 4, 100), None);
}

#[test]
fn read_number_respects_the_limit() {
    let chars = chars_of("2147483648");
    assert_eq!(read_number(&chars, 0, 10, 2147483647), None);
    assert_eq!(read_number(&chars, 0, 10, 2147483648), Some(2147483648));
    let max = chars_of("18446744073709551615");
    assert_eq!(read_number(&max, 0, 20, u64::MAX), Some(u64::MAX));
    let over = chars_of("18446744073709551616");
    assert_eq!(read_number(&over, 0, 20, u64::MAX), None);
    let zeros = chars_of("0000000000000000000000007");
    assert_eq!(read_number(&zeros, 0, 25, 10), Some(7));
}
