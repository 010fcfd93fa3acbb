use puzzles::calibration::{
    find_digit, find_last_digit, line_calibration_value, solve_day_one_part_one,
    solve_day_one_part_two,
};
use puzzles::text::SolveError;

fn lines(v: &[&str]) -> Vec<String> {
    v.iter().map(|s| s.to_string()).collect()
}

#[test]
fn solution_matches_example() {
    let input = vec![
        "1abc2".to_string(),
        "pqr3stu8vwx".to_string(),
        "a1b2c3d4e5f".to_string(),
        "treb7uchet".to_string(),
    ];
    assert_eq!(Ok(142), solve_day_one_part_one(&input));
}

#[test]
fn calibration_line_starts_and_ends_with_number() {
    let input = vec!["1abc2".to_string()];
    assert_eq!(Ok(12), solve_day_one_part_one(&input));
}

#[test]
fn calibration_line_contains_even_number_of_numbers() {
    let input = vec!["pqr3stu8vwx".to_string()];
    assert_eq!(Ok(38), solve_day_one_part_one(&input));
}

#[test]
fn calibration_line_contains_uneven_number_of_numbers() {
    let input = vec!["a1b2c3d4e5f".to_string()];
    assert_eq!(Ok(15), solve_day_one_part_one(&input));
}

#[test]
fn calibration_line_contains_one_number() {
    let input = vec!["treb7uchet".to_string()];
    assert_eq!(Ok(77), solve_day_one_part_one(&input));
}

#[test]
fn solution_part_two_matches_example() {
    let input = vec![
        "two1nine".to_string(),
        "eightwothree".to_string(),
        "abcone2threexyz".to_string(),
        "xtwone3four".to_string(),
        "4nineeightseven2".to_string(),
        "zoneight234".to_string(),
        "7pqrstsixteen".to_string(),
    ];
    assert_eq!(Ok(281), solve_day_one_part_two(&input));
}

#[test]
fn calibration_line_starts_and_ends_with_number_as_chars() {
    let input = vec!["two1nine".to_string()];
    assert_eq!(Ok(29), solve_day_one_part_two(&input));
}

#[test]
fn calibration_line_starts_and_ends_with_number_as_chars_no_digits() {
    let input = vec!["eightwothree".to_string()];
    assert_eq!(Ok(83), solve_day_one_part_two(&input));
}

#[test]
fn calibration_line_contains_even_number_of_numbers_as_chars_and_digits() {
    let input = vec!["abcone2threexyz".to_string()];
    assert_eq!(Ok(13), solve_day_one_part_two(&input));
}

#[test]
fn calibration_line_ends_with_even_number_of_numbers_as_chars_and_digits() {
    let input = vec!["xtwone3four".to_string()];
    assert_eq!(Ok(24), solve_day_one_part_two(&input));
}

#[test]
fn calibration_line_contains_uneven_number_of_numbers_as_chars_and_digits() {
    let input = vec!["4nineeightseven2".to_string()];
    assert_eq!(Ok(42), solve_day_one_part_two(&input));
}

#[test]
fn calibration_line_contains_one_number_as_chars() {
    let input = vec!["zoneight234".to_string()];
    assert_eq!(Ok(14), solve_day_one_part_two(&input));
}

#[test]
fn calibration_line_ends_with_one_number_as_chars() {
    let input = vec!["7pqrstsixteen".to_string()];
    assert_eq!(Ok(76), solve_day_one_part_two(&input));
}

#[test]
fn empty_input_sums_to_zero() {
    assert_eq!(Ok(0), solve_day_one_part_one(&Vec::new()));
    assert_eq!(Ok(0), solve_day_one_part_two(&Vec::new()));
}

#[test]
fn line_without_digit_is_malformed() {
    let input = lines(&["1abc2", "abc", "x"]);
    assert_eq!(Err(SolveError::Malformed(1)), solve_day_one_part_one(&input));
}

#[test]
fn spelled_words_are_ignored_in_part_one() {
    let input = lines(&["one"]);
    assert_eq!(Err(SolveError::Malformed(0)), solve_day_one_part_one(&input));
    assert_eq!(Ok(11), solve_day_one_part_two(&input));
}

#[test]
fn overlapping_words_are_read_by_their_start() {
    assert_eq!(Some(8), find_digit("eightwo", true));
    assert_eq!(Some(2), find_last_digit("eightwo", true));
    assert_eq!(Some(1), find_last_digit("twone", true));
    assert_eq!(None, find_digit("eightwo", false));
}

#[test]
fn each_digit_word_is_recognised() {
    let words = ["one", "two", "three", "four", "five", "six", "seven", "eight", "nine"];
    for (k, w) in words.iter().enumerate() {
        assert_eq!(Some(k as u8 + 1), find_digit(w, true));
        assert_eq!(Some(k as u8 + 1), find_last_digit(w, true));
    }
    assert_eq!(None, find_digit("zero", true));
}

#[test]
fn line_value_of_truncated_word_is_absent() {
    assert_eq!(None, line_calibration_value(&"thre".to_string(), true));
    assert_eq!(Some(33), line_calibration_value(&"xthreex".to_string(), true));
}

#[test]
fn calibration_solving_twice_gives_the_same_answer() {
    let input = lines(&["two1nine", "eightwothree", "abc9"]);
    assert_eq!(solve_day_one_part_two(&input), solve_day_one_part_two(&input));
    assert_eq!(solve_day_one_part_one(&input[2..].to_vec()), solve_day_one_part_one(&input[2..].to_vec()));
}

#[test]
fn reversed_palindromic_digits_keep_value() {
    let line = "a1b2c1d".to_string();
    let reversed: String = line.chars().rev().collect();
    assert_eq!(
        solve_day_one_part_one(&vec![line]),
        solve_day_one_part_one(&vec![reversed])
    );
}

#[test]
fn reversed_line_swaps_digits() {
    assert_eq!(Ok(12), solve_day_one_part_one(&lines(&["1ab2"])));
    assert_eq!(Ok(21), solve_day_one_part_one(&lines(&["2ba1"])));
}
