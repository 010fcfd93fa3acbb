use puzzles::schematic::{
    is_adjacent, parse_engine_specs, solve_day_three_part_one, solve_day_three_part_two,
    DigitsBuffer,
};
use puzzles::text::SolveError;

fn lines(v: &[&str]) -> Vec<String> {
    v.iter().map(|s| s.to_string()).collect()
}

fn example() -> Vec<String> {
    lines(&[
        "467..114..",
        "...*......",
        "..35..633.",
        "......#...",
        "617*......",
        ".....+.58.",
        "..592.....",
        "......755.",
        "...$.*....",
        ".664.598..",
    ])
}

#[test]
fn schematic_part_one_solution_matches_example() {
    let specs = example();
    let solution = solve_day_three_part_one(&specs);
    assert_eq!(Ok(4361), solution);
}

#[test]
fn parse_engine_specs_one_liner_no_parts_numer() {
    let specs = vec!["467..114..".to_string()];
    let expected = Vec::<u32>::new();
    let parsed_specs = parse_engine_specs(&specs);
    assert_eq!(Ok(expected), parsed_specs);
}

#[test]
fn parse_engine_specs_one_liner_before() {
    let specs = vec!["467.114*.".to_string()];
    let expected = vec![114];
    let parsed_specs = parse_engine_specs(&specs);
    assert_eq!(Ok(expected), parsed_specs);
}

#[test]
fn parse_engine_specs_one_liner_before_ends_with_number() {
    let specs = vec!["467..*114".to_string()];
    let expected = vec![114];
    let parsed_specs = parse_engine_specs(&specs);
    assert_eq!(Ok(expected), parsed_specs);
}

#[test]
fn parse_engine_specs_one_liner_after() {
    let specs = vec!["467.114*.".to_string()];
    let expected = vec![114];
    let parsed_specs = parse_engine_specs(&specs);
    assert_eq!(Ok(expected), parsed_specs);
}

#[test]
fn parse_engine_specs_one_liner_two_captures() {
    let specs = vec!["467*114.".to_string()];
    let expected = vec![467, 114];
    let parsed_specs = parse_engine_specs(&specs);
    assert_eq!(Ok(expected), parsed_specs);
}

#[test]
fn parse_engine_specs_two_liner() {
    let specs = vec!["467..114..".to_string(), "...*......".to_string()];
    let expected = vec![467];
    let parsed_specs = parse_engine_specs(&specs);
    assert_eq!(Ok(expected), parsed_specs);
}

#[test]
fn parse_engine_specs_two_liner_below() {
    let specs = vec!["..35.*633.".to_string(), "......#...".to_string()];
    let expected = vec![633];
    let parsed_specs = parse_engine_specs(&specs);
    assert_eq!(Ok(expected), parsed_specs);
}

#[test]
fn parse_engine_specs_three_liner() {
    let specs = vec![
        "467..114..".to_string(),
        "...*......".to_string(),
        "..35..633.".to_string(),
    ];
    let expected = vec![467, 35];
    let parsed_specs = parse_engine_specs(&specs);
    assert_eq!(Ok(expected), parsed_specs);
}

#[test]
fn gear_ratios_match_example() {
    assert_eq!(Ok(467835), solve_day_three_part_two(&example()));
}

#[test]
fn single_row_boundaries() {
    assert_eq!(Ok(617), solve_day_three_part_one(&lines(&["617*......"])));
    assert_eq!(Ok(617), solve_day_three_part_one(&lines(&["*617"])));
    assert_eq!(Ok(0), solve_day_three_part_one(&lines(&["617"])));
}

#[test]
fn runs_split_by_a_symbol_count_separately() {
    assert_eq!(Ok(vec![12, 34]), parse_engine_specs(&lines(&["12#34"])));
    assert_eq!(Ok(12 * 34), solve_day_three_part_two(&lines(&["12*34"])));
}

#[test]
fn gear_needs_exactly_two_numbers() {
    assert_eq!(Ok(2), solve_day_three_part_two(&lines(&["1.2", ".*.", "..."])));
    assert_eq!(Ok(0), solve_day_three_part_two(&lines(&["1.2", ".*.", "3.."])));
    assert_eq!(Ok(0), solve_day_three_part_two(&lines(&["1..", ".*.", "..."])));
    assert_eq!(Ok(0), solve_day_three_part_two(&lines(&["1.2", ".#.", "..."])));
}

#[test]
fn ragged_grid_is_malformed() {
    let specs = lines(&["467..", "...*.", "35"]);
    assert_eq!(Err(SolveError::Malformed(2)), parse_engine_specs(&specs));
    assert_eq!(Err(SolveError::Malformed(2)), solve_day_three_part_one(&specs));
    assert_eq!(Err(SolveError::Malformed(2)), solve_day_three_part_two(&specs));
}

#[test]
fn oversized_part_number_overflows() {
    let specs = lines(&["99999999999*"]);
    assert_eq!(Err(SolveError::Overflow), parse_engine_specs(&specs));
    assert_eq!(Err(SolveError::Overflow), solve_day_three_part_one(&specs));
}

#[test]
fn adjacency_is_clipped_at_the_edges() {
    let specs = lines(&["*..", "...", "..#"]);
    assert!(is_adjacent(0, 0, &specs));
    assert!(is_adjacent(1, 1, &specs));
    assert!(!is_adjacent(0, 2, &specs));
    assert!(is_adjacent(2, 2, &specs));
    assert!(!is_adjacent(2, 0, &specs));
}

#[test]
fn digits_buffer_captures_only_adjacent_runs() {
    let mut b = DigitsBuffer::new();
    assert!(!b.can_be_captured());
    b.end = 2;
    assert!(!b.can_be_captured());
    b.is_adjacent = true;
    assert!(b.can_be_captured());
}

#[test]
fn removing_a_symbol_never_raises_the_sum() {
    let mut specs = example();
    let before = solve_day_three_part_one(&specs).unwrap();
    specs[3] = "..........".to_string();
    let after = solve_day_three_part_one(&specs).unwrap();
    assert!(after <= before);
    assert_eq!(4361 - 633, after);
}

#[test]
fn schematic_solving_twice_gives_the_same_answer() {
    let specs = example();
    assert_eq!(solve_day_three_part_two(&specs), solve_day_three_part_two(&specs));
}
