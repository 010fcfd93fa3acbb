use puzzles::cube_game::{
    parse_game, solve_day_two_part_one, solve_day_two_part_two, sum_possible_game_ids, Bag, Game,
};
use puzzles::text::SolveError;

fn example() -> Vec<String> {
    vec![
        "Game 1: 3 blue, 4 red; 1 red, 2 green, 6 blue; 2 green".to_string(),
        "Game 2: 1 blue, 2 green; 3 green, 4 blue, 1 red; 1 green, 1 blue".to_string(),
        "Game 3: 8 green, 6 blue, 20 red; 5 blue, 4 red, 13 green; 5 green, 1 red".to_string(),
        "Game 4: 1 green, 3 red, 6 blue; 3 green, 6 red; 3 green, 15 blue, 14 red".to_string(),
        "Game 5: 6 red, 1 blue, 3 green; 2 blue, 1 red, 2 green".to_string(),
    ]
}

#[test]
fn game_is_parsed_from_input() {
    let game = "Game 1: 3 blue, 4 red; 1 red, 2 green, 6 blue; 2 green".to_string();
    let parsed_game = parse_game(&game).unwrap();
    assert_eq!(1, parsed_game.id);
    assert_eq!(4, parsed_game.red);
    assert_eq!(2, parsed_game.green);
    assert_eq!(6, parsed_game.blue);
}

#[test]
fn game_is_possible_when_bag_is_greater() {
    let game = Game { id: 1, red: 4, green: 4, blue: 4 };
    let bag = Bag { red: 5, green: 5, blue: 5 };
    let is_possible = game.is_game_possible(&bag);
    assert_eq!(true, is_possible);
}

#[test]
fn game_is_not_possible_when_bag_is_lesser() {
    let game = Game { id: 1, red: 4, green: 4, blue: 4 };
    let bag = Bag { red: 3, green: 3, blue: 3 };
    let is_possible = game.is_game_possible(&bag);
    assert_eq!(false, is_possible);
}

#[test]
fn game_is_not_possible_when_bag_red_is_lesser() {
    let game = Game { id: 1, red: 4, green: 4, blue: 4 };
    let bag = Bag { red: 3, green: 5, blue: 5 };
    let is_possible = game.is_game_possible(&bag);
    assert_eq!(false, is_possible);
}

#[test]
fn game_is_not_possible_when_bag_green_is_lesser() {
    let game = Game { id: 1, red: 4, green: 4, blue: 4 };
    let bag = Bag { red: 5, green: 3, blue: 5 };
    let is_possible = game.is_game_possible(&bag);
    assert_eq!(false, is_possible);
}

#[test]
fn game_is_not_possible_when_bag_blue_is_lesser() {
    let game = Game { id: 1, red: 4, green: 4, blue: 4 };
    let bag = Bag { red: 5, green: 5, blue: 3 };
    let is_possible = game.is_game_possible(&bag);
    assert_eq!(false, is_possible);
}

#[test]
fn main_part_one_solution_matches_example() {
    let game = example();
    let solution = solve_day_two_part_one(&game);
    assert_eq!(Ok(8), solution);
}

#[test]
fn main_part_two_solution_matches_example() {
    let game = example();
    let solution = solve_day_two_part_two(&game);
    assert_eq!(Ok(2286), solution);
}

#[test]
fn bag_equal_to_maxima_is_possible() {
    let game = Game { id: 7, red: 5, green: 6, blue: 7 };
    assert!(game.is_game_possible(&Bag { red: 5, green: 6, blue: 7 }));
}

#[test]
fn power_is_product_of_maxima() {
    let game = Game { id: 1, red: 4, green: 2, blue: 6 };
    assert_eq!(48, game.calc_power_of_set());
    let big = Game { id: 1, red: u32::MAX, green: u32::MAX, blue: 2 };
    assert_eq!(2 * (u32::MAX as u128) * (u32::MAX as u128), big.calc_power_of_set());
}

#[test]
fn repeated_colour_in_a_draw_adds_up() {
    let g = parse_game("Game 3: 2 red, 3 red; 4 red").unwrap();
    assert_eq!(5, g.red);
    assert_eq!(0, g.green);
    assert_eq!(0, g.blue);
    assert_eq!(0, g.calc_power_of_set());
}

#[test]
fn unknown_colour_is_a_parse_error() {
    assert!(parse_game("Game 1: 3 purple").is_none());
    assert!(parse_game("Game 1: 3 reddish").is_none());
    assert!(parse_game("Game 1: 3red").is_none());
    assert!(parse_game("Gme 1: 3 red").is_none());
    assert!(parse_game("Game 1: 3 red,").is_none());
    let mut games = example();
    games[3] = "Game 4: 1 yellow".to_string();
    assert_eq!(Err(SolveError::Malformed(3)), solve_day_two_part_one(&games));
    assert_eq!(Err(SolveError::Malformed(3)), solve_day_two_part_two(&games));
}

#[test]
fn spaces_around_separators_are_tolerated() {
    let g = parse_game("Game  12 :  1 blue ,2 green ;  3 red  ").unwrap();
    assert_eq!(12, g.id);
    assert_eq!((3, 2, 1), (g.red, g.green, g.blue));
}

#[test]
fn larger_bag_keeps_possible_games() {
    let games = example();
    let small = Bag { red: 12, green: 13, blue: 14 };
    let large = Bag { red: 20, green: 13, blue: 15 };
    let tiny = Bag { red: 1, green: 1, blue: 1 };
    assert_eq!(Ok(8), sum_possible_game_ids(&games, &small));
    assert_eq!(Ok(15), sum_possible_game_ids(&games, &large));
    assert_eq!(Ok(0), sum_possible_game_ids(&games, &tiny));
}

#[test]
fn cube_game_solving_twice_gives_the_same_answer() {
    let games = example();
    assert_eq!(solve_day_two_part_one(&games), solve_day_two_part_one(&games));
    assert_eq!(solve_day_two_part_two(&games), solve_day_two_part_two(&games));
}
