//! Scratchcards: each card lists winning numbers and drawn numbers; points
//! double with every match, and matches win copies of the following cards.
use vstd::prelude::*;
use crate::text::{
    as_answer, byte_is_digit, checked_total, decimal_value, digit_run, is_digit,
    lemma_checked_total_err, lemma_checked_total_step, lemma_digit_run_bound, line_bytes, nats,
    parse_decimal, skip_digits, skip_spaces, space_run, text_bytes, values_of, SolveError,
};

verus! {

broadcast use {vstd::set::group_set_axioms, vstd::seq_lib::group_seq_properties};

/// A list of numbers separated by spaces, starting at position `i`: the numbers
/// and the position of the first byte after them that is neither a space nor a
/// digit. `None` when one of them does not fit in `u64`.
pub open spec fn numbers_from(s: Seq<u8>, i: int) -> Option<(Seq<nat>, int)>
    decreases s.len() - i,
    via numbers_from_decreases
{
    let j: int = i + space_run(s, i);
    if 0 <= j < s.len() && is_digit(s[j]) {
        let e: int = j + 1 + digit_run(s, j + 1);
        let v = decimal_value(s.subrange(j, e));
        if v > u64::MAX {
            None
        } else {
            match numbers_from(s, e) {
                Some((rest, k)) => Some((seq![v] + rest, k)),
                None => None,
            }
        }
    } else {
        Some((Seq::empty(), j))
    }
}

#[via_fn]
proof fn numbers_from_decreases(s: Seq<u8>, i: int) {
    let j: int = i + space_run(s, i);
    if 0 <= j < s.len() && is_digit(s[j]) {
        lemma_digit_run_bound(s, j + 1);
    }
}

/// The bytes of the word `Card`.
pub open spec fn card_word() -> Seq<u8> {
    seq!['C' as u8, 'a' as u8, 'r' as u8, 'd' as u8]
}

/// A card line `Card <id>: <winning> | <drawn>` read as its identifier, its
/// winning numbers and its drawn numbers; `None` when the line does not follow
/// that form, a list is empty, or a number is out of range.
pub open spec fn card_of(s: Seq<u8>) -> Option<(nat, Seq<nat>, Seq<nat>)> {
    let j: int = 4 + space_run(s, 4) as int;
    let e: int = j + digit_run(s, j);
    if s.len() < 4 || s.subrange(0, 4) != card_word() || j == 4 || e == j || e >= s.len()
        || s[e] != ':' as u8 || decimal_value(s.subrange(j, e)) > u32::MAX {
        None
    } else {
        match numbers_from(s, e + 1) {
            Some((w, k)) => if w.len() == 0 || k >= s.len() || s[k] != '|' as u8 {
                None
            } else {
                match numbers_from(s, k + 1) {
                    Some((d, m)) => if d.len() == 0 || m != s.len() {
                        None
                    } else {
                        Some((decimal_value(s.subrange(j, e)), w, d))
                    },
                    None => None,
                }
            },
            None => None,
        }
    }
}

/// How many distinct drawn numbers are winning numbers.
pub open spec fn match_count(winning: Seq<nat>, drawn: Seq<nat>) -> nat {
    winning.to_set().intersect(drawn.to_set()).len()
}

pub open spec fn pow2(n: nat) -> nat
    decreases n,
{
    if n == 0 {
        1
    } else {
        2 * pow2((n - 1) as nat)
    }
}

/// The points of a card with `m` matches.
pub open spec fn points(m: nat) -> nat {
    if m == 0 {
        0
    } else {
        pow2((m - 1) as nat)
    }
}

/// The match count of the card on a line, if it is one.
#[verifier::opaque]
pub open spec fn card_matches(s: Seq<u8>) -> Option<nat> {
    match card_of(s) {
        Some((_, w, d)) => Some(match_count(w, d)),
        None => None,
    }
}

pub open spec fn line_points(lines: Seq<String>) -> Seq<Option<nat>> {
    lines.map_values(
        |l: String|
            match card_matches(text_bytes(l@)) {
                Some(m) => Some(points(m)),
                None => None,
            },
    )
}

/// The match count of each line's card, in order.
pub open spec fn line_matches(lines: Seq<String>) -> Seq<Option<nat>> {
    lines.map_values(|l: String| card_matches(text_bytes(l@)))
}

/// How many copies of card `j` (0-based) there are once every earlier card has
/// handed out its copies: the original plus one for each copy of each earlier
/// card `i` whose `ms[i]` following cards reach `j`.
#[verifier::opaque]
pub open spec fn copies(ms: Seq<nat>, j: int) -> nat
    decreases j, 1int,
{
    1 + won_before(ms, j, j)
}

/// The copies of card `j` won from cards `0..k`.
#[verifier::opaque]
pub open spec fn won_before(ms: Seq<nat>, j: int, k: int) -> nat
    decreases k, 0int,
{
    if k <= 0 {
        0
    } else {
        won_before(ms, j, k - 1) + if k - 1 < j <= k - 1 + ms[k - 1] {
            copies(ms, k - 1)
        } else {
            0
        }
    }
}

/// The copies of cards `0..n` in all.
pub open spec fn total_copies(ms: Seq<nat>, n: int) -> nat
    decreases n,
{
    if n <= 0 {
        0
    } else {
        total_copies(ms, n - 1) + copies(ms, n - 1)
    }
}

/// The answer of the copy count: the first line that is not a card, else the
/// number of cards in all when it fits in `u64`.
pub open spec fn copies_answer(vals: Seq<Option<nat>>) -> Result<nat, SolveError> {
    if exists|i: int| 0 <= i < vals.len() && (#[trigger] vals[i]) is None {
        let i = choose|i: int|
            0 <= i < vals.len() && (#[trigger] vals[i]) is None && forall|k: int|
                0 <= k < i ==> (#[trigger] vals[k]) is Some;
        Err(SolveError::Malformed(i as usize))
    } else {
        let t = total_copies(values_of(vals), vals.len() as int);
        if t > u64::MAX {
            Err(SolveError::Overflow)
        } else {
            Ok(t)
        }
    }
}

/// Every card exists at least once, so there are at least as many cards in
/// all as there are lines.
pub proof fn lemma_total_copies_at_least_card_count(ms: Seq<nat>, n: int)
    requires
        0 <= n,
    ensures
        total_copies(ms, n) >= n,
    decreases n,
{
    if n > 0 {
        lemma_total_copies_at_least_card_count(ms, n - 1);
        lemma_won_before_step(ms, n - 1, 0);
    }
}

proof fn lemma_won_before_step(ms: Seq<nat>, j: int, k: int)
    requires
        0 <= k,
    ensures
        won_before(ms, j, k + 1) == won_before(ms, j, k) + if k < j <= k + ms[k] {
            copies(ms, k)
        } else {
            0
        },
        won_before(ms, j, 0) == 0,
        copies(ms, j) == 1 + won_before(ms, j, j),
{
    reveal(won_before);
    reveal(copies);
}

proof fn lemma_won_before_grows(ms: Seq<nat>, j: int, k1: int, k2: int)
    requires
        0 <= k1 <= k2,
    ensures
        won_before(ms, j, k1) <= won_before(ms, j, k2),
    decreases k2 - k1,
{
    if k1 < k2 {
        lemma_won_before_step(ms, j, k2 - 1);
        lemma_won_before_grows(ms, j, k1, k2 - 1);
    }
}

proof fn lemma_total_copies_grows(ms: Seq<nat>, j: int, n: int)
    requires
        0 <= j < n,
    ensures
        total_copies(ms, n) >= total_copies(ms, j + 1),
        total_copies(ms, n) >= copies(ms, j),
    decreases n - j,
{
    if j + 1 < n {
        lemma_total_copies_grows(ms, j, n - 1);
    }
}

proof fn lemma_copies_overflow(vals: Seq<Option<nat>>, m: Seq<nat>)
    requires
        !(exists|k: int| 0 <= k < vals.len() && (#[trigger] vals[k]) is None),
        m == values_of(vals),
        total_copies(m, vals.len() as int) > u64::MAX,
    ensures
        copies_answer(vals) == Err::<nat, SolveError>(SolveError::Overflow),
{
}

/// A card as the solver sees it: its identifier and its match count.
pub struct Card {
    pub number: u32,
    pub matches: usize,
}

fn push_number(out: &mut Vec<u64>, v: u64)
    ensures
        nats(final(out)@) == nats(old(out)@).push(v as nat),
{
    out.push(v);
    assert(nats(final(out)@) =~= nats(old(out)@).push(v as nat));
}

/// Reads the list of numbers that starts at position `i`.
fn parse_numbers(s: &[u8], i: usize) -> (r: Option<(Vec<u64>, usize)>)
    requires
        i <= s@.len(),
    ensures
        match r {
            Some((v, k)) => numbers_from(s@, i as int) == Some((nats(v@), k as int)),
            None => numbers_from(s@, i as int) is None,
        },
{
    let mut out: Vec<u64> = Vec::new();
    let mut pos: usize = i;
    loop
        invariant
            i <= pos <= s@.len(),
            numbers_from(s@, i as int) == match numbers_from(s@, pos as int) {
                Some((rest, k)) => Some((nats(out@) + rest, k)),
                None => None,
            },
        decreases s@.len() - pos,
    {
        let j = skip_spaces(s, pos);
        if j < s.len() && byte_is_digit(s[j]) {
            let e = skip_digits(s, j);
            match parse_decimal(s, j, e) {
                None => {
                    return None;
                },
                Some(v) => {
                    let ghost before = nats(out@);
                    proof {
                        let t = numbers_from(s@, e as int);
                        if let Some((rest, k)) = t {
                            assert(before + (seq![v as nat] + rest) =~= before.push(v as nat)
                                + rest);
                        }
                    }
                    push_number(&mut out, v);
                    pos = e;
                },
            }
        } else {
            assert(nats(out@) + Seq::<nat>::empty() =~= nats(out@));
            return Some((out, j));
        }
    }
}

fn contains_before(v: &Vec<u64>, hi: usize, x: u64) -> (r: bool)
    requires
        hi <= v@.len(),
    ensures
        r == nats(v@).subrange(0, hi as int).contains(x as nat),
{
    let mut k: usize = 0;
    while k < hi
        invariant
            k <= hi <= v@.len(),
            forall|t: int| 0 <= t < k ==> v@[t] != x,
        decreases hi - k,
    {
        if v[k] == x {
            assert(nats(v@).subrange(0, hi as int)[k as int] == x as nat);
            return true;
        }
        k = k + 1;
    }
    false
}

proof fn lemma_intersect_step(w: Seq<nat>, d: Seq<nat>, j: int)
    requires
        0 <= j < d.len(),
    ensures
        match_count(w, d.subrange(0, j + 1)) == if w.contains(d[j]) && !d.subrange(
            0,
            j,
        ).contains(d[j]) {
            match_count(w, d.subrange(0, j)) + 1
        } else {
            match_count(w, d.subrange(0, j))
        },
{
    let old_set = w.to_set().intersect(d.subrange(0, j).to_set());
    let new_set = w.to_set().intersect(d.subrange(0, j + 1).to_set());
    assert(d.subrange(0, j + 1) =~= d.subrange(0, j).push(d[j]));
    d.subrange(0, j).lemma_push_to_set_commute(d[j]);
    if w.contains(d[j]) && !d.subrange(0, j).contains(d[j]) {
        assert(new_set =~= old_set.insert(d[j]));
    } else {
        assert(new_set =~= old_set);
    }
}

/// Counts the distinct drawn numbers that are winning numbers.
fn count_matches(winning: &Vec<u64>, drawn: &Vec<u64>) -> (r: usize)
    ensures
        r == match_count(nats(winning@), nats(drawn@)),
{
    let mut count: usize = 0;
    let mut j: usize = 0;
    assert(nats(drawn@).subrange(0, 0).to_set() =~= Set::<nat>::empty());
    assert(nats(winning@).to_set().intersect(Set::<nat>::empty()) =~= Set::<nat>::empty());
    while j < drawn.len()
        invariant
            j <= drawn@.len(),
            count <= j,
            count == match_count(nats(winning@), nats(drawn@).subrange(0, j as int)),
        decreases drawn@.len() - j,
    {
        proof {
            lemma_intersect_step(nats(winning@), nats(drawn@), j as int);
            assert(nats(winning@).subrange(0, winning@.len() as int) =~= nats(winning@));
        }
        let x = drawn[j];
        if contains_before(winning, winning.len(), x) && !contains_before(drawn, j, x) {
            count = count + 1;
        }
        j = j + 1;
    }
    assert(nats(drawn@).subrange(0, j as int) =~= nats(drawn@));
    count
}

/// Reads a card line: its identifier and how many distinct drawn numbers are
/// winning numbers. `None` when the line is not a card.
pub fn compute_card_points(card: &String) -> (r: Option<Card>)
    ensures
        r is Some <==> card_of(text_bytes(card@)) is Some,
        r matches Some(c) ==> card_of(text_bytes(card@)) matches Some((id, w, d)) && c.number
            == id && c.matches == match_count(w, d),
{
    let s = line_bytes(card);
    if s.len() < 4 || s[0] != 'C' as u8 || s[1] != 'a' as u8 || s[2] != 'r' as u8 || s[3]
        != 'd' as u8 {
        proof {
            if s@.len() >= 4 {
                assert(s@.subrange(0, 4) != card_word()) by {
                    if s@.subrange(0, 4) == card_word() {
                        assert(s@.subrange(0, 4)[0] == s@[0]);
                        assert(s@.subrange(0, 4)[1] == s@[1]);
                        assert(s@.subrange(0, 4)[2] == s@[2]);
                        assert(s@.subrange(0, 4)[3] == s@[3]);
                    }
                }
            }
        }
        return None;
    }
    assert(s@.subrange(0, 4) =~= card_word());
    let j = skip_spaces(s, 4);
    let e = skip_digits(s, j);
    if j == 4 || e == j || e >= s.len() || s[e] != ':' as u8 {
        return None;
    }
    let number = match parse_decimal(s, j, e) {
        Some(v) => {
            if v > u32::MAX as u64 {
                return None;
            }
            v as u32
        },
        None => {
            return None;
        },
    };
    let (winning, k) = match parse_numbers(s, e + 1) {
        Some(p) => p,
        None => {
            return None;
        },
    };
    if winning.len() == 0 || k >= s.len() || s[k] != '|' as u8 {
        return None;
    }
    let (drawn, m) = match parse_numbers(s, k + 1) {
        Some(p) => p,
        None => {
            return None;
        },
    };
    if drawn.len() == 0 || m != s.len() {
        return None;
    }
    let matches = count_matches(&winning, &drawn);
    Some(Card { number, matches })
}

proof fn lemma_pow2_grows(a: nat, b: nat)
    requires
        a <= b,
    ensures
        pow2(a) <= pow2(b),
    decreases b,
{
    if a < b {
        lemma_pow2_grows(a, (b - 1) as nat);
    }
}

/// The points of a card with `m` matches; `None` when they do not fit in `u64`.
pub fn card_points(m: usize) -> (r: Option<u64>)
    ensures
        r is Some <==> points(m as nat) <= u64::MAX,
        r matches Some(p) ==> p == points(m as nat),
{
    if m == 0 {
        return Some(0);
    }
    let mut p: u64 = 1;
    let mut k: usize = 0;
    while k < m - 1
        invariant
            k <= m - 1,
            m > 0,
            p == pow2(k as nat),
        decreases m - 1 - k,
    {
        if p > u64::MAX / 2 {
            proof {
                lemma_pow2_grows((k + 1) as nat, (m - 1) as nat);
            }
            return None;
        }
        p = p * 2;
        k = k + 1;
    }
    Some(p)
}

/// Sums the points of all cards: a card with `m > 0` matches scores `2^(m-1)`.
pub fn solve_day_four_part_one(input_lines: &Vec<String>) -> (r: Result<u64, SolveError>)
    ensures
        r == as_answer(checked_total(line_points(input_lines@))),
{
    let ghost vals = line_points(input_lines@);
    let mut sum: u64 = 0;
    let mut i: usize = 0;
    assert(vals.subrange(0, 0) =~= Seq::<Option<nat>>::empty());
    while i < input_lines.len()
        invariant
            i <= input_lines@.len(),
            vals == line_points(input_lines@),
            checked_total(vals.subrange(0, i as int)) == Ok::<nat, SolveError>(sum as nat),
        decreases input_lines@.len() - i,
    {
        let card = compute_card_points(&input_lines[i]);
        proof {
            lemma_checked_total_step(vals, i as int);
            reveal(card_matches);
        }
        match card {
            None => {
                proof {
                    lemma_checked_total_err(vals, i + 1);
                }
                return Err(SolveError::Malformed(i));
            },
            Some(c) => {
                match card_points(c.matches) {
                    Some(p) => {
                        if sum > u64::MAX - p {
                            proof {
                                lemma_checked_total_err(vals, i + 1);
                            }
                            return Err(SolveError::Overflow);
                        }
                        sum = sum + p;
                    },
                    None => {
                        proof {
                            lemma_checked_total_err(vals, i + 1);
                        }
                        return Err(SolveError::Overflow);
                    },
                }
            },
        }
        i = i + 1;
    }
    assert(vals.subrange(0, i as int) =~= vals);
    Ok(sum)
}

/// Reads the match count of every card; the first line that is not a card
/// is the error.
fn all_match_counts(input_lines: &Vec<String>) -> (r: Result<Vec<usize>, SolveError>)
    ensures
        match r {
            Ok(ms) => ms@.len() == input_lines@.len() && forall|k: int|
                0 <= k < ms@.len() ==> line_matches(input_lines@)[k] == Some(ms@[k] as nat),
            Err(e) => exists|i: int|
                0 <= i < input_lines@.len() && e == SolveError::Malformed(i as usize)
                    && line_matches(input_lines@)[i] is None && forall|k: int|
                    0 <= k < i ==> (#[trigger] line_matches(input_lines@)[k]) is Some,
        },
{
    let ghost vals = line_matches(input_lines@);
    let mut ms: Vec<usize> = Vec::new();
    let mut i: usize = 0;
    while i < input_lines.len()
        invariant
            i <= input_lines@.len(),
            vals == line_matches(input_lines@),
            ms@.len() == i,
            forall|k: int| 0 <= k < i ==> vals[k] == Some(ms@[k] as nat),
        decreases input_lines@.len() - i,
    {
        let card = compute_card_points(&input_lines[i]);
        proof {
            reveal(card_matches);
        }
        match card {
            None => {
                assert(vals[i as int] is None);
                assert(forall|k: int| 0 <= k < i ==> (#[trigger] vals[k]) is Some);
                return Err(SolveError::Malformed(i));
            },
            Some(c) => {
                ms.push(c.matches);
            },
        }
        i = i + 1;
    }
    Ok(ms)
}

/// Counts the cards in all once every card with `m` matches has won one copy
/// of each of the next `m` cards per copy of itself (never past the last card).
pub fn solve_day_four_part_two(input_lines: &Vec<String>) -> (r: Result<u64, SolveError>)
    ensures
        r == as_answer(copies_answer(line_matches(input_lines@))),
        r matches Ok(v) ==> v >= input_lines@.len(),
{
    let ghost vals = line_matches(input_lines@);
    let ms = match all_match_counts(input_lines) {
        Ok(ms) => ms,
        Err(e) => {
            proof {
                let i = choose|i: int|
                    0 <= i < vals.len() && (#[trigger] vals[i]) is None && forall|k: int|
                        0 <= k < i ==> (#[trigger] vals[k]) is Some;
                let i0 = choose|i: int|
                    0 <= i < input_lines@.len() && e == SolveError::Malformed(i as usize)
                        && line_matches(input_lines@)[i] is None && forall|k: int|
                        0 <= k < i ==> (#[trigger] line_matches(input_lines@)[k]) is Some;
                assert(i == i0) by {
                    if i < i0 {
                        assert(vals[i] is Some);
                    }
                    if i0 < i {
                        assert(vals[i0] is Some);
                    }
                }
            }
            return Err(e);
        },
    };
    let ghost m = values_of(vals);
    assert(forall|k: int| 0 <= k < ms@.len() ==> m[k] == ms@[k] as nat);
    let n = ms.len();
    let mut cp: Vec<u64> = Vec::new();
    while cp.len() < n
        invariant
            cp@.len() <= n,
            forall|k: int| 0 <= k < cp@.len() ==> cp@[k] == 1,
        decreases n - cp@.len(),
    {
        cp.push(1);
    }
    assert forall|k: int| 0 <= k < n implies cp@[k] == 1 + won_before(m, k, 0) by {
        lemma_won_before_step(m, k, 0);
    }
    let mut i: usize = 0;
    while i < n
        invariant
            n == ms@.len(),
            cp@.len() == n,
            i <= n,
            forall|k: int| 0 <= k < n ==> m[k] == ms@[k] as nat,
            forall|k: int| 0 <= k < i ==> cp@[k] == copies(m, k),
            forall|k: int| i <= k < n ==> cp@[k] == 1 + won_before(m, k, i as int),
            !(exists|k: int| 0 <= k < vals.len() && (#[trigger] vals[k]) is None),
            vals == line_matches(input_lines@),
            n == vals.len(),
            m == values_of(vals),
        decreases n - i,
    {
        let mi = ms[i];
        let last: usize = if mi >= n - 1 - i {
            n - 1
        } else {
            i + mi
        };
        proof {
            lemma_won_before_step(m, i as int, 0);
        }
        let own = cp[i];
        let mut j: usize = i + 1;
        while j <= last
            invariant
                n == ms@.len(),
                cp@.len() == n,
                i < n,
                i < j <= last + 1,
                last < n,
                mi == ms@[i as int],
                last == if mi >= n - 1 - i { n - 1 } else { i + mi },
                own == copies(m, i as int),
                forall|k: int| 0 <= k < n ==> m[k] == ms@[k] as nat,
                forall|k: int| 0 <= k <= i ==> cp@[k] == copies(m, k),
                forall|k: int| i < k < j ==> cp@[k] == 1 + won_before(m, k, i + 1),
                forall|k: int| j <= k < n ==> cp@[k] == 1 + won_before(m, k, i as int),
                !(exists|k: int| 0 <= k < vals.len() && (#[trigger] vals[k]) is None),
                vals == line_matches(input_lines@),
                n == vals.len(),
                m == values_of(vals),
            decreases last + 1 - j,
        {
            proof {
                lemma_won_before_step(m, j as int, i as int);
            }
            if cp[j] > u64::MAX - own {
                proof {
                    lemma_won_before_grows(m, j as int, i + 1, j as int);
                    lemma_total_copies_grows(m, j as int, n as int);
                    assert(total_copies(m, n as int) > u64::MAX);
                    lemma_copies_overflow(vals, m);
                }
                return Err(SolveError::Overflow);
            }
            let v = cp[j] + own;
            cp.set(j, v);
            j = j + 1;
        }
        assert forall|k: int| last < k < n implies cp@[k] == 1 + won_before(m, k, i + 1) by {
            lemma_won_before_step(m, k, i as int);
        }
        i = i + 1;
    }
    let mut total: u64 = 0;
    let mut k: usize = 0;
    while k < n
        invariant
            n == ms@.len(),
            cp@.len() == n,
            k <= n,
            forall|t: int| 0 <= t < n ==> cp@[t] == copies(m, t),
            total == total_copies(m, k as int),
            vals == line_matches(input_lines@),
            n == vals.len(),
            m == values_of(vals),
            !(exists|k: int| 0 <= k < vals.len() && (#[trigger] vals[k]) is None),
        decreases n - k,
    {
        if total > u64::MAX - cp[k] {
            proof {
                lemma_total_copies_grows(m, k as int, n as int);
                lemma_copies_overflow(vals, m);
            }
            return Err(SolveError::Overflow);
        }
        total = total + cp[k];
        k = k + 1;
    }
    proof {
        lemma_total_copies_at_least_card_count(m, n as int);
    }
    Ok(total)
}

} // verus!
