use pagerank::parse::{is_white_space, parse_edge};

fn parse(line: &str) -> Option<(usize, usize)> {
    let chars: Vec<char> = line.chars().collect();
    parse_edge(&chars)
}

#[test]
fn two_fields_make_an_edge() {
    assert_eq!(parse("1 2"), Some((1, 2)));
    assert_eq!(parse("9411001\t9312012"), Some((9411001, 9312012)));
    assert_eq!(parse("  007   +42  \r"), Some((7, 42)));
    assert_eq!(parse("0 0"), Some((0, 0)));
}

#[test]
fn what_follows_the_second_field_is_not_read() {
    assert_eq!(parse("3 4 five"), Some((3, 4)));
    assert_eq!(parse("3 4 -1 x"), Some((3, 4)));
}

#[test]
fn unicode_white_space_separates_fields() {
    assert_eq!(parse("5\u{a0}6"), Some((5, 6)));
    assert_eq!(parse("\u{3000}5\u{2003}6\u{2028}"), Some((5, 6)));
    assert!(is_white_space('\u{85}'));
    assert!(is_white_space('\u{1680}'));
    assert!(!is_white_space('\u{200b}'));
    assert!(!is_white_space('0'));
}

#[test]
fn lines_without_two_numbers_have_no_edge() {
    assert_eq!(parse(""), None);
    assert_eq!(parse("   "), None);
    assert_eq!(parse("12"), None);
    assert_eq!(parse("12 x"), None);
    assert_eq!(parse("x 12"), None);
    assert_eq!(parse("1 -2"), None);
    assert_eq!(parse("1 +"), None);
    assert_eq!(parse("1.5 2"), None);
    assert_eq!(parse("1 2x"), None);
    assert_eq!(parse("१ २"), None);
}

#[test]
fn numbers_beyond_a_machine_word_have_no_edge() {
    let max = usize::MAX.to_string();
    assert_eq!(parse(&format!("{} 1", max)), Some((usize::MAX, 1)));
    assert_eq!(parse(&format!("000{} 1", max)), Some((usize::MAX, 1)));
    assert_eq!(parse(&format!("{}0 1", max)), None);
    assert_eq!(parse("1 99999999999999999999999999"), None);
    let above = format!("{}", usize::MAX as u128 + 1);
    assert_eq!(parse(&format!("1 {}", above)), None);
}
