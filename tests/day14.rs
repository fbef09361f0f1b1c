use aoc2018::day14::{decimal_digits, make_new_recipes, star_one, star_two, Elf};

#[test]
fn day14_test_star_one() {
    assert_eq!(star_one(9), String::from("5158916779"));
    assert_eq!(star_one(5), String::from("0124515891"));
    assert_eq!(star_one(18), String::from("9251071085"));
    assert_eq!(star_one(2018), String::from("5941429882"));
}

#[test]
fn day14_test_star_two() {
    assert_eq!(star_two(&[5, 1, 5, 8, 9]), Some(9));
    assert_eq!(star_two(&[0, 1, 2, 4, 5]), Some(5));
    assert_eq!(star_two(&[9, 2, 5, 1, 0]), Some(18));
    assert_eq!(star_two(&[5, 9, 4, 1, 4]), Some(2018));
    assert_eq!(star_two(&[1, 2, 4, 5, 1, 5]), Some(6));
}

#[test]
fn new_recipes_are_digits_of_the_sum() {
    let board = vec![3, 7];
    let elves = vec![Elf::new(0), Elf::new(1)];
    assert_eq!(make_new_recipes(&elves, &board), vec![1, 0]);
    assert_eq!(decimal_digits(7), vec![7]);
    assert_eq!(decimal_digits(18), vec![1, 8]);
}

#[test]
fn elf_moves_around_the_board() {
    let board = vec![3, 7, 1, 0];
    let mut elf = Elf::new(1);
    elf.pick_new_recipe(&board);
    assert_eq!(elf.current_recipe, (1 + 7 + 1) % 4);
}
