use aoc2018::day02::{almost_equal, star_one, star_two};

fn chars(s: &str) -> Vec<char> {
    s.chars().collect()
}

#[test]
fn day02_test_star_one() {
    assert_eq!(
        star_one("abcdef\nbababc\nabbcde\nabcccd\naabcdd\nabcdee\nababab"),
        12
    )
}

#[test]
fn day02_test_star_two() {
    assert_eq!(
        star_two(
            "abcde
fghij
klmno
pqrst
fguij
axcye
wvxyz"
        ),
        Some(String::from("fgij"))
    )
}

#[test]
fn almost_equal_cases() {
    assert_eq!(almost_equal(&chars("fghij"), &chars("fguij")), Some(2));
    assert_eq!(almost_equal(&chars("abcde"), &chars("axcye")), None);
    assert_eq!(almost_equal(&chars("abc"), &chars("abc")), None);
    assert_eq!(almost_equal(&chars("abc"), &chars("abcd")), None);
}

#[test]
fn no_pair_gives_none() {
    assert_eq!(star_two("abc\nxyz"), None);
}
