use aoc2018::day09::solve;

#[test]
fn day09_test_star_one() {
    assert_eq!(solve(9, 25), 32);
    assert_eq!(solve(10, 1618), 8317);
    assert_eq!(solve(13, 7999), 146373);
    assert_eq!(solve(17, 1104), 2764);
    assert_eq!(solve(21, 6111), 54718);
    assert_eq!(solve(30, 5807), 37305);
}

#[test]
fn no_scoring_before_marble_twenty_three() {
    assert_eq!(solve(9, 22), 0);
    assert_eq!(solve(9, 23), 32);
}
