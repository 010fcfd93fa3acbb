use puzzles::snack_packs::sort_packs;

fn lines(v: &[&str]) -> Vec<String> {
    v.iter().map(|s| s.to_string()).collect()
}

#[test]
fn packs_come_out_largest_first() {
    let snacks = lines(&["1000", "2000", "", "4000", "", "5000", "6000", "", "100", ""]);
    assert_eq!(Some(vec![11000, 4000, 3000, 100]), sort_packs(snacks));
}

#[test]
fn unclosed_last_pack_is_left_out() {
    let snacks = lines(&["1", "2", "", "7"]);
    assert_eq!(Some(vec![3]), sort_packs(snacks));
}

#[test]
fn any_non_number_closes_a_pack() {
    let snacks = lines(&["5", "x", "+6", "-1", ""]);
    assert_eq!(Some(vec![6, 5, 0]), sort_packs(snacks));
}

#[test]
fn running_total_overflow_gives_none() {
    let snacks = lines(&["18446744073709551615", "1", ""]);
    assert_eq!(None, sort_packs(snacks));
}

#[test]
fn no_lines_no_packs() {
    assert_eq!(Some(vec![]), sort_packs(Vec::new()));
}
