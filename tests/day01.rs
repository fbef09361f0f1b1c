use aoc2018::day01::{parse, star_one, star_two};

#[test]
fn day01_test_star_one() {
    assert_eq!(star_one("+1, -2, +3, +1"), Some(3));
    assert_eq!(star_one("+1, +1, +1"), Some(3));
    assert_eq!(star_one("+1, +1, -2"), Some(0));
    assert_eq!(star_one("-1, -2, -3"), Some(-6));
}

#[test]
fn day01_test_star_two() {
    assert_eq!(star_two("+1, -1"), Some(0));
    assert_eq!(star_two("+3, +3, +4, -2, -4"), Some(10));
    assert_eq!(star_two("-6, +3, +8, +5, -6"), Some(5));
    assert_eq!(star_two("+7, +7, -2, -7, -4"), Some(14));
}

#[test]
fn parse_reads_lines_and_skips_single_characters() {
    assert_eq!(parse("+12\n-3\n7\n"), Some(vec![12, -3]));
    assert_eq!(parse(""), Some(vec![]));
}

#[test]
fn parse_refuses_non_numbers() {
    assert_eq!(parse("+1, x2"), None);
    assert_eq!(star_one("+1, -+"), None);
    assert_eq!(parse("+99999999999999999999"), None);
}

#[test]
fn star_two_of_nothing_is_none() {
    assert_eq!(star_two(""), None);
}
