use aoc2018::day15::{
    minimal_elf_power, reading_order, star_one, star_two, GameState, Outcome, Position, Unit,
    UnitType,
};
use std::cmp::Ordering;

const EXAMPLE_ONE: &str = "
#######
#G..#E#
#E#E.E#
#G.##.#
#...#E#
#...E.#
#######";

const EXAMPLE_TWO: &str = "
#######
#E..EG#
#.#G.E#
#E.##E#
#G..#.#
#..E#.#
#######";

const EXAMPLE_THREE: &str = "
#######
#E.G#.#
#.#G..#
#G.#.G#
#G..#.#
#...E.#
#######";

const EXAMPLE_FOUR: &str = "
#######
#.E...#
#.#..G#
#.###.#
#E#G#G#
#...#G#
#######";

const EXAMPLE_FIVE: &str = "
#########
#G......#
#.E.#...#
#..##..G#
#...##..#
#...#...#
#.G...G.#
#.....G.#
#########";

const EXAMPLE_SIX: &str = "
#######
#.G...#
#...EG#
#.#.#G#
#..G#E#
#.....#
#######";

const EXAMPLE_SEVEN: &str = "
#######
#E..EG#
#.#G.E#
#E.##E#
#G..#.#
#..E#.#
#######";

const EXAMPLE_EIGHT: &str = "
#######
#E.G#.#
#.#G..#
#G.#.G#
#G..#.#
#...E.#
#######";

const EXAMPLE_NINE: &str = "
#######
#.E...#
#.#..G#
#.###.#
#E#G#G#
#...#G#
#######";

const EXAMPLE_TEN: &str = "
#########
#G......#
#.E.#...#
#..##..G#
#...##..#
#...#...#
#.G...G.#
#.....G.#
#########";

#[test]
fn day15_test_star_one() {
    assert_eq!(star_one(EXAMPLE_ONE), Some(36334));
    assert_eq!(star_one(EXAMPLE_TWO), Some(39514));
    assert_eq!(star_one(EXAMPLE_THREE), Some(27755));
    assert_eq!(star_one(EXAMPLE_FOUR), Some(28944));
    assert_eq!(star_one(EXAMPLE_FIVE), Some(18740));
}

#[test]
fn day15_test_star_two() {
    assert_eq!(star_two(EXAMPLE_SIX), Some(4988));
    assert_eq!(star_two(EXAMPLE_SEVEN), Some(31284));
    assert_eq!(star_two(EXAMPLE_EIGHT), Some(3478));
    assert_eq!(star_two(EXAMPLE_NINE), Some(6474));
    assert_eq!(star_two(EXAMPLE_TEN), Some(1140));
}

#[test]
fn first_move_on_shortest_path() {
    let input = "
#######
#.E...#
#.....#
#...G.#
#######";
    let state = GameState::parse(input).unwrap();

    let mut move_to_make = state.first_move_on_shortest_path(&(2, 1), &(4, 2));
    assert_eq!(move_to_make, Some((3, 1)));

    move_to_make = state.first_move_on_shortest_path(&(4, 2), &(2, 1));
    assert_eq!(move_to_make, Some((4, 1)));
}

#[test]
fn first_move_on_shortest_path_edge_case() {
    let input = "#######
#G.E#E#
#E#..E#
#G.##.#
#.E.#.#
#....E#
#######";
    let state = GameState::parse(input).unwrap();
    let move_to_make = state.first_move_on_shortest_path(&(2, 4), &(2, 3));

    assert_eq!(move_to_make, Some((2, 3)));
}

#[test]
fn test_reading_order() {
    assert_eq!(reading_order(&(2, 3), &(1, 4)), Ordering::Less);
}

#[test]
fn reading_order_greater_and_equal() {
    assert_eq!(reading_order(&(1, 4), &(2, 3)), Ordering::Greater);
    assert_eq!(reading_order(&(3, 3), &(2, 3)), Ordering::Greater);
    assert_eq!(reading_order(&(2, 3), &(2, 3)), Ordering::Equal);
}

#[test]
fn tuning_finds_power_fifteen() {
    let state = GameState::parse(EXAMPLE_SIX).unwrap();
    assert_eq!(minimal_elf_power(&state), Some((15, 4988)));
}

#[test]
fn same_scenario_same_score() {
    assert_eq!(star_one(EXAMPLE_THREE), star_one(EXAMPLE_THREE));
    assert_eq!(star_two(EXAMPLE_EIGHT), star_two(EXAMPLE_EIGHT));
}

#[test]
fn tie_between_two_targets_goes_to_reading_order() {
    // The elf is two steps from (3, 1) and from (2, 2), both next to the
    // goblin; (3, 1) comes first in reading order, and the step toward it
    // is (2, 1).
    let input = "
#####
#E..#
#..G#
#####";
    let mut state = GameState::parse(input).unwrap();
    assert_eq!(state.choose_target(&(1, 1), UnitType::Elf), Some((3, 1)));
    assert_eq!(state.first_move_on_shortest_path(&(1, 1), &(3, 1)), Some((2, 1)));
    state.take_turn(0);
    assert_eq!(state.units[0].location, (2, 1));
}

#[test]
fn parse_refuses_unknown_glyph() {
    assert!(GameState::parse("#.X#").is_none());
    assert_eq!(star_one("###\n#?#\n###"), None);
}

#[test]
fn parse_refuses_ragged_rows() {
    assert!(GameState::parse("####\n#.#\n####").is_none());
}

#[test]
fn parse_reads_units_and_terrain() {
    let state = GameState::parse("  #####  \n\n#E.G#\r\n#####").unwrap();
    assert_eq!(state.width, 5);
    assert_eq!(state.height, 3);
    assert_eq!(state.units.len(), 2);
    assert_eq!(state.units[0].unit_type, UnitType::Elf);
    assert_eq!(state.units[0].location, (1, 1));
    assert_eq!(state.units[1].location, (3, 1));
    assert_eq!(state.grid[5 + 1], Position::Occupied(0));
    assert_eq!(state.grid[5 + 2], Position::Open);
    assert_eq!(state.grid[0], Position::Wall);
}

#[test]
fn distance_grid_counts_steps_around_walls() {
    let state = GameState::parse("#####\n#E#.#\n#...#\n#####").unwrap();
    let d = state.calculate_distance_grid(&(1, 1));
    assert_eq!(d[5 + 1], Some(0));
    assert_eq!(d[10 + 1], Some(1));
    assert_eq!(d[10 + 3], Some(3));
    assert_eq!(d[5 + 3], Some(4));
    assert_eq!(d[0], None);
}

#[test]
fn distances_are_symmetric_between_open_cells() {
    let state = GameState::parse("#####\n#.#.#\n#...#\n#####").unwrap();
    let from_a = state.calculate_distance_grid(&(1, 1));
    let from_b = state.calculate_distance_grid(&(3, 1));
    assert_eq!(from_a[5 + 3], from_b[5 + 1]);
    assert_eq!(from_a[5 + 3], Some(4));
}

#[test]
fn take_damage_floors_at_zero() {
    let mut u = Unit::new(UnitType::Goblin, (0, 0));
    assert!(!u.take_damage(199));
    assert_eq!(u.health, 1);
    assert!(u.take_damage(3));
    assert_eq!(u.health, 0);
    assert!(u.is_dead());
    assert!(!u.is_alive());
}

#[test]
fn weakest_adjacent_enemy_is_attacked() {
    let mut state = GameState::parse("#####\n#.G.#\n#GEG#\n#####").unwrap();
    // Units in reading order: goblin (2,1), goblin (1,2), elf (2,2), goblin (3,2).
    state.units[3].health = 5;
    assert_eq!(state.prioritized_enemy(UnitType::Elf, &(2, 2)), Some(((3, 2), 3)));
    state.units[3].health = 200;
    assert_eq!(state.prioritized_enemy(UnitType::Elf, &(2, 2)), Some(((2, 1), 0)));
}

#[test]
fn fight_reports_winner_and_rounds() {
    let mut state = GameState::parse("#####\n#E.G#\n#####").unwrap();
    match state.fight(false) {
        Outcome::Won { rounds, winner } => {
            // The elf acts first each round, so it lands the last blow.
            assert_eq!(winner, UnitType::Elf);
            assert_eq!(state.score(rounds, winner), Some(rounds * state.remaining_health_for_faction(UnitType::Elf)));
        }
        other => panic!("unexpected {:?}", other),
    }
    assert_eq!(state.num_combatants_alive(UnitType::Goblin), 0);
}

#[test]
fn render_shows_the_map() {
    let state = GameState::parse("#####\n#E.G#\n#####").unwrap();
    assert_eq!(state.render(), "#####\n#E.G#\n#####");
    assert_eq!(Position::Wall.to_char(&state.units), '#');
    assert_eq!(Position::Open.to_char(&state.units), '.');
    assert_eq!(Position::Occupied(1).to_char(&state.units), 'G');
}

#[test]
fn first_round_of_the_movement_example() {
    let mut state = GameState::parse(EXAMPLE_SIX).unwrap();
    assert_eq!(state.turn(), (true, None));
    assert_eq!(
        state.render(),
        "#######\n#..G..#\n#...EG#\n#.#G#G#\n#...#E#\n#.....#\n#######"
    );
    assert_eq!(state.remaining_health_for_faction(UnitType::Elf), 197 + 197);
}

#[test]
fn grid_and_units_agree_after_rounds() {
    let mut state = GameState::parse(EXAMPLE_ONE).unwrap();
    for _ in 0..10 {
        state.turn();
        for (i, u) in state.units.iter().enumerate() {
            let cell = state.grid[u.location.1 * state.width + u.location.0];
            if u.is_alive() {
                assert_eq!(cell, Position::Occupied(i));
                assert!(u.health > 0);
            } else {
                assert_eq!(u.health, 0);
                assert_ne!(cell, Position::Occupied(i));
            }
        }
        for (c, p) in state.grid.iter().enumerate() {
            if let Position::Occupied(i) = p {
                let u = &state.units[*i];
                assert!(u.is_alive());
                assert_eq!(u.location.1 * state.width + u.location.0, c);
            }
        }
    }
}

#[test]
fn unit_killed_earlier_in_the_round_is_skipped() {
    // The goblin kills the weak elf below it, the other elf kills the
    // goblin; the dead elf's turn is skipped and the round counts as full.
    let mut state = GameState::parse("####\n#GE#\n#E.#\n####").unwrap();
    state.units[0].health = 3;
    state.units[2].health = 3;
    assert_eq!(state.turn(), (true, Some(UnitType::Elf)));
    assert_eq!(state.remaining_health_for_faction(UnitType::Elf), 200);
}
