use aoc2018::day08::{parse, read_node, star_one, star_two};

const EXAMPLE: &str = "2 3 0 3 10 11 12 1 1 0 1 99 2 1 1 2";

#[test]
fn day08_test_star_one() {
    assert_eq!(star_one(EXAMPLE), Some(138))
}

#[test]
fn day08_test_star_two() {
    assert_eq!(star_two(EXAMPLE), Some(66))
}

#[test]
fn leaf_node_value_is_its_metadata_sum() {
    let numbers = parse("0 3 1 2 3").unwrap();
    assert_eq!(read_node(&numbers, 0), Some((6, 6, 5)));
}

#[test]
fn truncated_tree_is_refused() {
    assert_eq!(star_one("1 1 0"), None);
    assert_eq!(star_two("2 3 x"), None);
}
