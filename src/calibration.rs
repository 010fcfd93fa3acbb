//! Calibration lines: the first and last digit of each line, read either as
//! plain digits or also as the spelled-out words `one` to `nine`.
use vstd::prelude::*;
use crate::text::{
    as_answer, byte_is_digit, checked_total, digit_value, has_word, is_digit,
    lemma_checked_total_err, lemma_checked_total_step, text_bytes, word_here, SolveError,
};

verus! {

/// The spelled-out name of the digit `k`, for `k` in `1..=9`.
pub open spec fn spelled_word(k: nat) -> Seq<u8> {
    if k == 1 {
        seq!['o' as u8, 'n' as u8, 'e' as u8]
    } else if k == 2 {
        seq!['t' as u8, 'w' as u8, 'o' as u8]
    } else if k == 3 {
        seq!['t' as u8, 'h' as u8, 'r' as u8, 'e' as u8, 'e' as u8]
    } else if k == 4 {
        seq!['f' as u8, 'o' as u8, 'u' as u8, 'r' as u8]
    } else if k == 5 {
        seq!['f' as u8, 'i' as u8, 'v' as u8, 'e' as u8]
    } else if k == 6 {
        seq!['s' as u8, 'i' as u8, 'x' as u8]
    } else if k == 7 {
        seq!['s' as u8, 'e' as u8, 'v' as u8, 'e' as u8, 'n' as u8]
    } else if k == 8 {
        seq!['e' as u8, 'i' as u8, 'g' as u8, 'h' as u8, 't' as u8]
    } else {
        seq!['n' as u8, 'i' as u8, 'n' as u8, 'e' as u8]
    }
}

/// The word for `k` starts at position `i` of `s`.
pub open spec fn word_at(s: Seq<u8>, i: int, k: nat) -> bool {
    word_here(s, i, spelled_word(k))
}

/// The least `k` in `from..=9` whose word starts at position `i`.
pub open spec fn spelled_at(s: Seq<u8>, i: int, from: nat) -> Option<nat>
    decreases 10 - from,
{
    if from < 1 || from > 9 {
        None
    } else if word_at(s, i, from) {
        Some(from)
    } else {
        spelled_at(s, i, from + 1)
    }
}

/// The digit that a token starting at position `i` stands for: a decimal digit
/// character, or (when `spelled`) a digit word.
pub open spec fn token_at(s: Seq<u8>, i: int, spelled: bool) -> Option<nat> {
    if 0 <= i < s.len() && is_digit(s[i]) {
        Some(digit_value(s[i]))
    } else if spelled {
        spelled_at(s, i, 1)
    } else {
        None
    }
}

/// The token that starts earliest at or after position `i`.
pub open spec fn first_token_from(s: Seq<u8>, i: int, spelled: bool) -> Option<nat>
    decreases s.len() - i,
{
    if i < 0 || i >= s.len() {
        None
    } else if token_at(s, i, spelled) is Some {
        token_at(s, i, spelled)
    } else {
        first_token_from(s, i + 1, spelled)
    }
}

/// The token that starts latest before position `i`.
pub open spec fn last_token_before(s: Seq<u8>, i: int, spelled: bool) -> Option<nat>
    decreases i,
{
    if i <= 0 || i > s.len() {
        None
    } else if token_at(s, i - 1, spelled) is Some {
        token_at(s, i - 1, spelled)
    } else {
        last_token_before(s, i - 1, spelled)
    }
}

/// The two-digit value of a line: first token, then last token; `None` when the
/// line holds no token.
pub open spec fn calibration_value(s: Seq<u8>, spelled: bool) -> Option<nat> {
    match (first_token_from(s, 0, spelled), last_token_before(s, s.len() as int, spelled)) {
        (Some(f), Some(l)) => Some(10 * f + l),
        _ => None,
    }
}

/// The value of each line, in order.
pub open spec fn calibration_values(lines: Seq<String>, spelled: bool) -> Seq<Option<nat>> {
    lines.map_values(|l: String| calibration_value(text_bytes(l@), spelled))
}

/// The decimal digit characters of a line, in order.
pub open spec fn digit_tokens(s: Seq<u8>) -> Seq<u8>
    decreases s.len(),
{
    if s.len() == 0 {
        Seq::empty()
    } else {
        (if is_digit(s[0]) {
            seq![s[0]]
        } else {
            Seq::empty()
        }) + digit_tokens(s.drop_first())
    }
}

proof fn lemma_first_digit_token(s: Seq<u8>, i: int)
    requires
        0 <= i <= s.len(),
    ensures
        first_token_from(s, i, false) == if digit_tokens(s.subrange(i, s.len() as int)).len() > 0 {
            Some(digit_value(digit_tokens(s.subrange(i, s.len() as int))[0]))
        } else {
            None::<nat>
        },
    decreases s.len() - i,
{
    let t = s.subrange(i, s.len() as int);
    if i < s.len() {
        lemma_first_digit_token(s, i + 1);
        assert(t.drop_first() =~= s.subrange(i + 1, s.len() as int));
        assert(t[0] == s[i]);
    } else {
        assert(t.len() == 0);
    }
}

proof fn lemma_last_is_first_of_reverse(s: Seq<u8>, n: int)
    requires
        0 <= n <= s.len(),
    ensures
        last_token_before(s, n, false) == first_token_from(s.reverse(), s.len() - n, false),
    decreases n,
{
    if n > 0 {
        lemma_last_is_first_of_reverse(s, n - 1);
        assert(s.reverse()[s.len() - n] == s[n - 1]);
    }
}

/// Reading a line backwards gives the same plain calibration value whenever
/// its digit characters read the same backwards as forwards.
pub proof fn lemma_reverse_keeps_value(s: Seq<u8>)
    requires
        digit_tokens(s) == digit_tokens(s.reverse()),
    ensures
        calibration_value(s.reverse(), false) == calibration_value(s, false),
{
    let r = s.reverse();
    assert(r.reverse() =~= s);
    assert(s.subrange(0, s.len() as int) =~= s);
    assert(r.subrange(0, r.len() as int) =~= r);
    lemma_first_digit_token(s, 0);
    lemma_first_digit_token(r, 0);
    lemma_last_is_first_of_reverse(s, s.len() as int);
    lemma_last_is_first_of_reverse(r, r.len() as int);
}

proof fn lemma_spelled_bound(s: Seq<u8>, i: int, from: nat)
    ensures
        spelled_at(s, i, from) matches Some(k) ==> from <= k <= 9,
    decreases 10 - from,
{
    if 1 <= from <= 9 {
        lemma_spelled_bound(s, i, from + 1);
    }
}

proof fn lemma_token_bound(s: Seq<u8>, i: int, spelled: bool)
    ensures
        token_at(s, i, spelled) matches Some(d) ==> d <= 9,
{
    lemma_spelled_bound(s, i, 1);
}

proof fn lemma_first_bound(s: Seq<u8>, i: int, spelled: bool)
    ensures
        first_token_from(s, i, spelled) matches Some(d) ==> d <= 9,
    decreases s.len() - i,
{
    lemma_token_bound(s, i, spelled);
    if 0 <= i < s.len() {
        lemma_first_bound(s, i + 1, spelled);
    }
}

proof fn lemma_last_bound(s: Seq<u8>, i: int, spelled: bool)
    ensures
        last_token_before(s, i, spelled) matches Some(d) ==> d <= 9,
    decreases i,
{
    lemma_token_bound(s, i - 1, spelled);
    if 0 < i <= s.len() {
        lemma_last_bound(s, i - 1, spelled);
    }
}

/// The bytes of the word for `k`.
fn word_bytes(k: u8) -> (w: Vec<u8>)
    requires
        1 <= k <= 9,
    ensures
        w@ == spelled_word(k as nat),
{
    let w = if k == 1 {
        vec!['o' as u8, 'n' as u8, 'e' as u8]
    } else if k == 2 {
        vec!['t' as u8, 'w' as u8, 'o' as u8]
    } else if k == 3 {
        vec!['t' as u8, 'h' as u8, 'r' as u8, 'e' as u8, 'e' as u8]
    } else if k == 4 {
        vec!['f' as u8, 'o' as u8, 'u' as u8, 'r' as u8]
    } else if k == 5 {
        vec!['f' as u8, 'i' as u8, 'v' as u8, 'e' as u8]
    } else if k == 6 {
        vec!['s' as u8, 'i' as u8, 'x' as u8]
    } else if k == 7 {
        vec!['s' as u8, 'e' as u8, 'v' as u8, 'e' as u8, 'n' as u8]
    } else if k == 8 {
        vec!['e' as u8, 'i' as u8, 'g' as u8, 'h' as u8, 't' as u8]
    } else {
        vec!['n' as u8, 'i' as u8, 'n' as u8, 'e' as u8]
    };
    assert(w@ =~= spelled_word(k as nat));
    w
}

fn starts_with_word(s: &[u8], i: usize, k: u8) -> (r: bool)
    requires
        1 <= k <= 9,
    ensures
        r == word_at(s@, i as int, k as nat),
{
    has_word(s, i, &word_bytes(k))
}

fn token_at_exec(s: &[u8], i: usize, spelled: bool) -> (r: Option<u8>)
    requires
        i < s@.len(),
    ensures
        r matches Some(d) ==> token_at(s@, i as int, spelled) == Some(d as nat),
        r is None ==> token_at(s@, i as int, spelled) is None,
{
    if byte_is_digit(s[i]) {
        return Some(s[i] - 48);
    }
    if !spelled {
        return None;
    }
    let mut k: u8 = 1;
    while k <= 9
        invariant
            1 <= k <= 10,
            !is_digit(s@[i as int]),
            spelled,
            spelled_at(s@, i as int, 1) == spelled_at(s@, i as int, k as nat),
        decreases 10 - k,
    {
        if starts_with_word(s, i, k) {
            return Some(k);
        }
        k = k + 1;
    }
    None
}

/// The first digit token of a line: the one whose start comes earliest.
pub fn find_digit(characters: &str, spelled: bool) -> (r: Option<u8>)
    ensures
        r matches Some(d) ==> first_token_from(text_bytes(characters@), 0, spelled) == Some(
            d as nat,
        ),
        r is None ==> first_token_from(text_bytes(characters@), 0, spelled) is None,
{
    let s = characters.as_bytes();
    let mut i: usize = 0;
    while i < s.len()
        invariant
            i <= s@.len(),
            s@ == text_bytes(characters@),
            first_token_from(s@, 0, spelled) == first_token_from(s@, i as int, spelled),
        decreases s@.len() - i,
    {
        let t = token_at_exec(s, i, spelled);
        if t.is_some() {
            return t;
        }
        i = i + 1;
    }
    None
}

/// The last digit token of a line: the one whose start comes latest.
pub fn find_last_digit(characters: &str, spelled: bool) -> (r: Option<u8>)
    ensures
        r matches Some(d) ==> last_token_before(
            text_bytes(characters@),
            text_bytes(characters@).len() as int,
            spelled,
        ) == Some(d as nat),
        r is None ==> last_token_before(
            text_bytes(characters@),
            text_bytes(characters@).len() as int,
            spelled,
        ) is None,
{
    let s = characters.as_bytes();
    let mut i: usize = s.len();
    while i > 0
        invariant
            i <= s@.len(),
            s@ == text_bytes(characters@),
            last_token_before(s@, s@.len() as int, spelled) == last_token_before(
                s@,
                i as int,
                spelled,
            ),
        decreases i,
    {
        let t = token_at_exec(s, i - 1, spelled);
        if t.is_some() {
            return t;
        }
        i = i - 1;
    }
    None
}

/// The two-digit value of one line.
pub fn line_calibration_value(line: &String, spelled: bool) -> (r: Option<u8>)
    ensures
        r matches Some(v) ==> calibration_value(text_bytes(line@), spelled) == Some(v as nat),
        r is None ==> calibration_value(text_bytes(line@), spelled) is None,
{
    let first = find_digit(line.as_str(), spelled);
    let last = find_last_digit(line.as_str(), spelled);
    proof {
        let s = text_bytes(line@);
        lemma_first_bound(s, 0, spelled);
        lemma_last_bound(s, s.len() as int, spelled);
    }
    match (first, last) {
        (Some(f), Some(l)) => Some(10 * f + l),
        _ => None,
    }
}

fn solve_calibration(input_lines: &Vec<String>, spelled: bool) -> (r: Result<u64, SolveError>)
    ensures
        r == as_answer(checked_total(calibration_values(input_lines@, spelled))),
{
    let ghost vals = calibration_values(input_lines@, spelled);
    let mut sum: u64 = 0;
    let mut i: usize = 0;
    assert(vals.subrange(0, 0) =~= Seq::<Option<nat>>::empty());
    while i < input_lines.len()
        invariant
            i <= input_lines@.len(),
            vals == calibration_values(input_lines@, spelled),
            checked_total(vals.subrange(0, i as int)) == Ok::<nat, SolveError>(sum as nat),
        decreases input_lines@.len() - i,
    {
        let v = line_calibration_value(&input_lines[i], spelled);
        proof {
            lemma_checked_total_step(vals, i as int);
        }
        match v {
            None => {
                proof {
                    lemma_checked_total_err(vals, i + 1);
                }
                return Err(SolveError::Malformed(i));
            },
            Some(v) => {
                if sum > u64::MAX - v as u64 {
                    proof {
                        lemma_checked_total_err(vals, i + 1);
                    }
                    return Err(SolveError::Overflow);
                }
                sum = sum + v as u64;
            },
        }
        i = i + 1;
    }
    assert(vals.subrange(0, i as int) =~= vals);
    Ok(sum)
}

/// Sums the calibration values of all lines, reading digit characters only.
/// A line without any digit is malformed.
pub fn solve_day_one_part_one(input_lines: &Vec<String>) -> (r: Result<u64, SolveError>)
    ensures
        r == as_answer(checked_total(calibration_values(input_lines@, false))),
{
    solve_calibration(input_lines, false)
}

/// Sums the calibration values of all lines, reading digit characters and the
/// words `one` to `nine`, which may overlap. A line without any token is malformed.
pub fn solve_day_one_part_two(input_lines: &Vec<String>) -> (r: Result<u64, SolveError>)
    ensures
        r == as_answer(checked_total(calibration_values(input_lines@, true))),
{
    solve_calibration(input_lines, true)
}

} // verus!
