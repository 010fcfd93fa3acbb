use puzzles::scratchcard::{
    card_points, compute_card_points, solve_day_four_part_one, solve_day_four_part_two,
};
use puzzles::text::SolveError;

fn example() -> Vec<String> {
    vec![
        "Card 1: 41 48 83 86 17 | 83 86  6 31 17  9 48 53".to_string(),
        "Card 2: 13 32 20 16 61 | 61 30 68 82 17 32 24 19".to_string(),
        "Card 3:  1 21 53 59 44 | 69 82 63 72 16 21 14  1".to_string(),
        "Card 4: 41 92 73 84 69 | 59 84 76 51 58  5 54 83".to_string(),
        "Card 5: 87 83 26 28 32 | 88 30 70 12 93 22 82 36".to_string(),
        "Card 6: 31 18 13 56 72 | 74 77 10 23 35 67 36 11".to_string(),
    ]
}

#[test]
fn part_one_solution_matches_example() {
    let cards = vec![
        "Card 1: 41 48 83 86 17 | 83 86  6 31 17  9 48 53".to_string(),
        "Card 2: 13 32 20 16 61 | 61 30 68 82 17 32 24 19".to_string(),
        "Card 3:  1 21 53 59 44 | 69 82 63 72 16 21 14  1".to_string(),
        "Card 4: 41 92 73 84 69 | 59 84 76 51 58  5 54 83".to_string(),
        "Card 5: 87 83 26 28 32 | 88 30 70 12 93 22 82 36".to_string(),
        "Card 6: 31 18 13 56 72 | 74 77 10 23 35 67 36 11".to_string(),
    ];
    let solution = solve_day_four_part_one(&cards);
    assert_eq!(Ok(13), solution);
}

#[test]
fn part_two_solution_matches_example() {
    let cards = vec![
        "Card 1: 41 48 83 86 17 | 83 86  6 31 17  9 48 53".to_string(),
        "Card 2: 13 32 20 16 61 | 61 30 68 82 17 32 24 19".to_string(),
        "Card 3:  1 21 53 59 44 | 69 82 63 72 16 21 14  1".to_string(),
        "Card 4: 41 92 73 84 69 | 59 84 76 51 58  5 54 83".to_string(),
        "Card 5: 87 83 26 28 32 | 88 30 70 12 93 22 82 36".to_string(),
        "Card 6: 31 18 13 56 72 | 74 77 10 23 35 67 36 11".to_string(),
    ];
    let solution = solve_day_four_part_two(&cards);
    assert_eq!(Ok(30), solution);
}

#[test]
fn card_1_has_8_points() {
    let line = "Card 1: 41 48 83 86 17 | 83 86  6 31 17  9 48 53".to_string();
    let card = compute_card_points(&line);
    assert_eq!(4, card.unwrap().matches);
}

#[test]
fn card_2_has_2_points() {
    let line = "Card 2: 13 32 20 16 61 | 61 30 68 82 17 32 24 19".to_string();
    let card = compute_card_points(&line);
    assert_eq!(2, card.unwrap().matches);
}

#[test]
fn card_3_has_2_points() {
    let line = "Card 3:  1 21 53 59 44 | 69 82 63 72 16 21 14  1".to_string();
    let card = compute_card_points(&line);
    assert_eq!(2, card.unwrap().matches);
}

#[test]
fn card_4_has_1_points() {
    let line = "Card 4: 41 92 73 84 69 | 59 84 76 51 58  5 54 83".to_string();
    let card = compute_card_points(&line);
    assert_eq!(1, card.unwrap().matches);
}

#[test]
fn card_5_has_0_points() {
    let line = "Card 5: 87 83 26 28 32 | 88 30 70 12 93 22 82 36".to_string();
    let card = compute_card_points(&line);
    assert_eq!(0, card.unwrap().matches);
}

#[test]
fn card_6_has_0_points() {
    let line = "Card 6: 31 18 13 56 72 | 74 77 10 23 35 67 36 11".to_string();
    let card = compute_card_points(&line);
    assert_eq!(0, card.unwrap().matches);
}

#[test]
fn card_number_is_read() {
    let line = "Card  12: 1 2 | 2 3".to_string();
    let card = compute_card_points(&line).unwrap();
    assert_eq!(12, card.number);
    assert_eq!(1, card.matches);
}

#[test]
fn repeated_drawn_number_counts_once() {
    let line = "Card 1: 5 6 | 5 5 6".to_string();
    assert_eq!(2, compute_card_points(&line).unwrap().matches);
}

#[test]
fn card_without_separator_is_malformed() {
    let cards = vec!["Card 1: 1 2 3 4".to_string()];
    assert!(compute_card_points(&cards[0]).is_none());
    assert_eq!(Err(SolveError::Malformed(0)), solve_day_four_part_one(&cards));
    assert_eq!(Err(SolveError::Malformed(0)), solve_day_four_part_two(&cards));
}

#[test]
fn malformed_card_lines_are_reported_by_index() {
    let mut cards = example();
    cards.insert(2, "Crad 3: 1 | 1".to_string());
    assert_eq!(Err(SolveError::Malformed(2)), solve_day_four_part_one(&cards));
    assert_eq!(Err(SolveError::Malformed(2)), solve_day_four_part_two(&cards));
    assert!(compute_card_points(&"Card 1: | 2".to_string()).is_none());
    assert!(compute_card_points(&"Card 1: 1 |".to_string()).is_none());
    assert!(compute_card_points(&"Card1: 1 | 1".to_string()).is_none());
    assert!(compute_card_points(&"Card 1: 1 | 1 x".to_string()).is_none());
}

#[test]
fn points_double_per_match() {
    assert_eq!(Some(0), card_points(0));
    assert_eq!(Some(1), card_points(1));
    assert_eq!(Some(8), card_points(4));
    assert_eq!(Some(1u64 << 63), card_points(64));
    assert_eq!(None, card_points(65));
}

#[test]
fn copies_never_go_past_the_last_card() {
    let cards = vec![
        "Card 1: 1 2 3 | 1 2 3".to_string(),
        "Card 2: 9 | 9".to_string(),
    ];
    // card 1 wins one copy of card 2 only: 1 + 2
    assert_eq!(Ok(3), solve_day_four_part_two(&cards));
}

#[test]
fn part_two_is_at_least_the_card_count() {
    let cards = example();
    let total = solve_day_four_part_two(&cards).unwrap();
    assert!(total >= cards.len() as u64);
    let none_win = vec!["Card 1: 1 | 2".to_string(), "Card 2: 3 | 4".to_string()];
    assert_eq!(Ok(2), solve_day_four_part_two(&none_win));
}

#[test]
fn empty_card_list() {
    assert_eq!(Ok(0), solve_day_four_part_one(&Vec::new()));
    assert_eq!(Ok(0), solve_day_four_part_two(&Vec::new()));
}
