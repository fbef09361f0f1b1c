use aoc2018::day05::{reduce, star_one, star_two};

#[test]
fn day05_test_star_one() {
    assert_eq!(star_one("dabAcCaCBAcCcaDA"), 10);
}

#[test]
fn day05_test_star_two() {
    assert_eq!(star_two("dabAcCaCBAcCcaDA"), 4);
}

#[test]
fn reduce_removes_pairs_and_units() {
    let input: Vec<char> = "aA".chars().collect();
    assert_eq!(reduce(&input, None), Vec::<char>::new());
    let input: Vec<char> = "abBA".chars().collect();
    assert_eq!(reduce(&input, None), Vec::<char>::new());
    let input: Vec<char> = "aabAAB".chars().collect();
    assert_eq!(reduce(&input, None), "aabAAB".chars().collect::<Vec<char>>());
    let input: Vec<char> = "dabAcCaCBAcCcaDA".chars().collect();
    assert_eq!(reduce(&input, Some('a')), "dbCBcD".chars().collect::<Vec<char>>());
    assert_eq!(reduce(&input, Some('C')), "daDA".chars().collect::<Vec<char>>());
}

#[test]
fn trailing_newline_is_trimmed() {
    assert_eq!(star_one("dabAcCaCBAcCcaDA\n"), 10);
}

#[test]
fn case_folding_covers_non_ascii_letters() {
    let input: Vec<char> = "xÄäy".chars().collect();
    assert_eq!(reduce(&input, None), vec!['x', 'y']);
    let input: Vec<char> = "ÉxéX".chars().collect();
    assert_eq!(reduce(&input, Some('é')), Vec::<char>::new());
}
