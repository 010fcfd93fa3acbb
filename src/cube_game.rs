//! Cube games: each line records the handfuls of red, green and blue cubes
//! drawn from a bag; a game is possible when no colour ever exceeds the bag.
use vstd::prelude::*;
use crate::text::{
    as_answer, byte_is_digit, checked_total, decimal_value, digit_run, is_digit,
    has_word, lemma_checked_total_err, lemma_checked_total_step, parse_decimal, skip_digits,
    skip_spaces, space_run, text_bytes, word_here, SolveError,
};

verus! {

/// Counts of red, green and blue cubes.
pub type Rgb = (nat, nat, nat);

pub open spec fn red_word() -> Seq<u8> {
    seq!['r' as u8, 'e' as u8, 'd' as u8]
}

pub open spec fn green_word() -> Seq<u8> {
    seq!['g' as u8, 'r' as u8, 'e' as u8, 'e' as u8, 'n' as u8]
}

pub open spec fn blue_word() -> Seq<u8> {
    seq!['b' as u8, 'l' as u8, 'u' as u8, 'e' as u8]
}

pub open spec fn game_word() -> Seq<u8> {
    seq!['G' as u8, 'a' as u8, 'm' as u8, 'e' as u8]
}

/// `cur` with `n` more cubes of colour `k` (0 red, 1 green, 2 blue).
pub open spec fn add_cubes(cur: Rgb, k: nat, n: nat) -> Rgb {
    if k == 0 {
        (cur.0 + n, cur.1, cur.2)
    } else if k == 1 {
        (cur.0, cur.1 + n, cur.2)
    } else {
        (cur.0, cur.1, cur.2 + n)
    }
}

pub open spec fn max_nat(a: nat, b: nat) -> nat {
    if a >= b {
        a
    } else {
        b
    }
}

/// The colourwise maximum.
pub open spec fn max_rgb(a: Rgb, b: Rgb) -> Rgb {
    (max_nat(a.0, b.0), max_nat(a.1, b.1), max_nat(a.2, b.2))
}

pub open spec fn fits_u32(c: Rgb) -> bool {
    c.0 <= u32::MAX && c.1 <= u32::MAX && c.2 <= u32::MAX
}

/// The colour named at position `k` and the position after its name.
pub open spec fn colour_at(s: Seq<u8>, k: int) -> Option<(nat, int)> {
    if word_here(s, k, red_word()) {
        Some((0, k + 3))
    } else if word_here(s, k, green_word()) {
        Some((1, k + 5))
    } else if word_here(s, k, blue_word()) {
        Some((2, k + 4))
    } else {
        None
    }
}

/// Reads the entries `count colour` from position `i` on, where `cur` holds
/// the counts of the draw under way and `mx` the colourwise maximum of the
/// draws before it. Entries are separated by `,` within a draw and draws by
/// `;`; repeated colours within a draw add up. The result is the colourwise
/// maximum over all draws, or `None` when the text does not follow that form or
/// a count leaves `u32`.
pub open spec fn draws_from(s: Seq<u8>, i: int, cur: Rgb, mx: Rgb) -> Option<Rgb>
    decreases s.len() - i,
{
    let j: int = i + space_run(s, i);
    if !(0 <= j < s.len() && is_digit(s[j])) {
        None
    } else {
        let e: int = j + 1 + digit_run(s, j + 1);
        let k: int = e + space_run(s, e);
        let n = decimal_value(s.subrange(j, e));
        if k == e || n > u32::MAX {
            None
        } else {
            match colour_at(s, k) {
                None => None,
                Some((colour, end)) => {
                    let next = add_cubes(cur, colour, n);
                    let t: int = end + space_run(s, end);
                    if !fits_u32(next) {
                        None
                    } else if t == s.len() {
                        Some(max_rgb(mx, next))
                    } else if t < s.len() && s[t] == ',' as u8 {
                        draws_from(s, t + 1, next, mx)
                    } else if t < s.len() && s[t] == ';' as u8 {
                        draws_from(s, t + 1, (0, 0, 0), max_rgb(mx, next))
                    } else {
                        None
                    }
                },
            }
        }
    }
}

/// A game line `Game <id>: <draws>` (spaces allowed around the tokens) read
/// as its identifier and the colourwise maximum over its draws.
pub open spec fn game_of(s: Seq<u8>) -> Option<(nat, Rgb)> {
    let j: int = 4 + space_run(s, 4) as int;
    let e: int = j + digit_run(s, j);
    let colon: int = e + space_run(s, e);
    if !word_here(s, 0, game_word()) || j == 4 || e == j || colon >= s.len() || s[colon]
        != ':' as u8 || decimal_value(s.subrange(j, e)) > u32::MAX {
        None
    } else {
        match draws_from(s, colon + 1, (0, 0, 0), (0, 0, 0)) {
            Some(mx) => Some((decimal_value(s.subrange(j, e)), mx)),
            None => None,
        }
    }
}

/// The cubes a bag holds of each colour.
pub struct Bag {
    pub red: u32,
    pub green: u32,
    pub blue: u32,
}

/// A game: its identifier and the most cubes of each colour seen in one draw.
pub struct Game {
    pub id: u32,
    pub red: u32,
    pub green: u32,
    pub blue: u32,
}

/// No colour ever needs more cubes than the bag holds.
pub open spec fn within_bag(mx: Rgb, bag: Bag) -> bool {
    mx.0 <= bag.red && mx.1 <= bag.green && mx.2 <= bag.blue
}

/// The product of the colourwise maxima.
pub open spec fn power(mx: Rgb) -> nat {
    mx.0 * mx.1 * mx.2
}

/// The bag of the first question: 12 red, 13 green and 14 blue cubes.
pub open spec fn standard_bag() -> Bag {
    Bag { red: 12, green: 13, blue: 14 }
}

/// Per line: the game's identifier when it is possible with `bag`, else 0;
/// `None` for a line that is not a game.
pub open spec fn possible_ids(lines: Seq<String>, bag: Bag) -> Seq<Option<nat>> {
    lines.map_values(
        |l: String|
            match game_of(text_bytes(l@)) {
                Some(p) => Some(if within_bag(p.1, bag) { p.0 } else { 0 }),
                None => None,
            },
    )
}

/// Per line: the power of the game; `None` for a line that is not a game.
pub open spec fn powers(lines: Seq<String>) -> Seq<Option<nat>> {
    lines.map_values(
        |l: String|
            match game_of(text_bytes(l@)) {
                Some(p) => Some(power(p.1)),
                None => None,
            },
    )
}

/// The lines that hold a game possible with `bag`.
pub open spec fn possible_games(lines: Seq<String>, bag: Bag) -> Set<int> {
    Set::new(
        |i: int|
            0 <= i < lines.len() && match game_of(text_bytes(lines[i]@)) {
                Some(p) => within_bag(p.1, bag),
                None => false,
            },
    )
}

/// A bag with at least as many cubes of each colour admits every game that a
/// smaller one admits: enlarging the bag never loses a possible game, and
/// shrinking it never gains one.
pub proof fn lemma_larger_bag_keeps_possible_games(lines: Seq<String>, small: Bag, large: Bag)
    requires
        small.red <= large.red,
        small.green <= large.green,
        small.blue <= large.blue,
    ensures
        possible_games(lines, small).subset_of(possible_games(lines, large)),
{
}

impl Game {
    /// Whether the game could have been played with `bag`.
    pub fn is_game_possible(&self, bag: &Bag) -> (r: bool)
        ensures
            r == within_bag((self.red as nat, self.green as nat, self.blue as nat), *bag),
    {
        bag.red >= self.red && bag.green >= self.green && bag.blue >= self.blue
    }

    /// The product of the three colourwise maxima.
    pub fn calc_power_of_set(&self) -> (r: u128)
        ensures
            r == power((self.red as nat, self.green as nat, self.blue as nat)),
    {
        let red = self.red as u128;
        let green = self.green as u128;
        let blue = self.blue as u128;
        assert(red * green <= 0xffff_ffff_ffff_ffff && red * green * blue
            <= 0xffff_ffff_ffff_ffff_ffff_ffff) by (nonlinear_arith)
            requires
                red <= 0xffff_ffff,
                green <= 0xffff_ffff,
                blue <= 0xffff_ffff,
        ;
        red * green * blue
    }
}

fn read_colour(s: &[u8], k: usize) -> (r: Option<(u8, usize)>)
    ensures
        match r {
            Some((c, end)) => colour_at(s@, k as int) == Some((c as nat, end as int)),
            None => colour_at(s@, k as int) is None,
        },
{
    let red = vec!['r' as u8, 'e' as u8, 'd' as u8];
    let green = vec!['g' as u8, 'r' as u8, 'e' as u8, 'e' as u8, 'n' as u8];
    let blue = vec!['b' as u8, 'l' as u8, 'u' as u8, 'e' as u8];
    assert(red@ =~= red_word());
    assert(green@ =~= green_word());
    assert(blue@ =~= blue_word());
    let n = s.len();
    assert(n == s@.len());
    if has_word(s, k, &red) {
        Some((0, k + 3))
    } else if has_word(s, k, &green) {
        Some((1, k + 5))
    } else if has_word(s, k, &blue) {
        Some((2, k + 4))
    } else {
        None
    }
}

pub open spec fn rgb_of(c: (u32, u32, u32)) -> Rgb {
    (c.0 as nat, c.1 as nat, c.2 as nat)
}

fn max_u32(a: u32, b: u32) -> (r: u32)
    ensures
        r == max_nat(a as nat, b as nat),
{
    if a >= b {
        a
    } else {
        b
    }
}

/// Reads the draws that start at position `i`.
fn parse_draws(s: &[u8], i: usize) -> (r: Option<(u32, u32, u32)>)
    requires
        i <= s@.len(),
    ensures
        match r {
            Some(m) => draws_from(s@, i as int, (0, 0, 0), (0, 0, 0)) == Some(rgb_of(m)),
            None => draws_from(s@, i as int, (0, 0, 0), (0, 0, 0)) is None,
        },
{
    let mut cur: (u32, u32, u32) = (0, 0, 0);
    let mut mx: (u32, u32, u32) = (0, 0, 0);
    let mut pos: usize = i;
    loop
        invariant
            pos <= s@.len(),
            draws_from(s@, i as int, (0, 0, 0), (0, 0, 0)) == draws_from(
                s@,
                pos as int,
                rgb_of(cur),
                rgb_of(mx),
            ),
        decreases s@.len() - pos,
    {
        let j = skip_spaces(s, pos);
        if !(j < s.len() && byte_is_digit(s[j])) {
            return None;
        }
        let e = skip_digits(s, j);
        assert(e == j + 1 + digit_run(s@, j + 1));
        let k = skip_spaces(s, e);
        if k == e {
            return None;
        }
        let n = match parse_decimal(s, j, e) {
            Some(n) => n,
            None => {
                return None;
            },
        };
        if n > u32::MAX as u64 {
            return None;
        }
        let (colour, end) = match read_colour(s, k) {
            Some(p) => p,
            None => {
                return None;
            },
        };
        let n = n as u32;
        let next: (u32, u32, u32) = if colour == 0 {
            if cur.0 > u32::MAX - n {
                return None;
            }
            (cur.0 + n, cur.1, cur.2)
        } else if colour == 1 {
            if cur.1 > u32::MAX - n {
                return None;
            }
            (cur.0, cur.1 + n, cur.2)
        } else {
            if cur.2 > u32::MAX - n {
                return None;
            }
            (cur.0, cur.1, cur.2 + n)
        };
        assert(rgb_of(next) == add_cubes(rgb_of(cur), colour as nat, n as nat));
        let t = skip_spaces(s, end);
        let closed = (max_u32(mx.0, next.0), max_u32(mx.1, next.1), max_u32(mx.2, next.2));
        assert(rgb_of(closed) == max_rgb(rgb_of(mx), rgb_of(next)));
        if t == s.len() {
            return Some(closed);
        } else if t < s.len() && s[t] == ',' as u8 {
            cur = next;
        } else if t < s.len() && s[t] == ';' as u8 {
            cur = (0, 0, 0);
            mx = closed;
        } else {
            return None;
        }
        pos = t + 1;
    }
}

/// Reads a game line: its identifier and the most cubes of each colour that
/// one draw shows. `None` when the line is not a game.
pub fn parse_game(game: &str) -> (r: Option<Game>)
    ensures
        r is Some <==> game_of(text_bytes(game@)) is Some,
        r matches Some(g) ==> game_of(text_bytes(game@)) matches Some(p) && g.id == p.0 && g.red
            == p.1.0 && g.green == p.1.1 && g.blue == p.1.2,
{
    let s = game.as_bytes();
    let word = vec!['G' as u8, 'a' as u8, 'm' as u8, 'e' as u8];
    assert(word@ =~= game_word());
    if !has_word(s, 0, &word) {
        return None;
    }
    let j = skip_spaces(s, 4);
    let e = skip_digits(s, j);
    let colon = skip_spaces(s, e);
    if j == 4 || e == j || colon >= s.len() || s[colon] != ':' as u8 {
        return None;
    }
    let id = match parse_decimal(s, j, e) {
        Some(v) => {
            if v > u32::MAX as u64 {
                return None;
            }
            v as u32
        },
        None => {
            return None;
        },
    };
    match parse_draws(s, colon + 1) {
        Some(m) => Some(Game { id, red: m.0, green: m.1, blue: m.2 }),
        None => None,
    }
}

/// Sums the identifiers of the games that are possible with `bag`.
pub fn sum_possible_game_ids(input_lines: &Vec<String>, bag: &Bag) -> (r: Result<u64, SolveError>)
    ensures
        r == as_answer(checked_total(possible_ids(input_lines@, *bag))),
{
    let ghost vals = possible_ids(input_lines@, *bag);
    let mut sum: u64 = 0;
    let mut i: usize = 0;
    assert(vals.subrange(0, 0) =~= Seq::<Option<nat>>::empty());
    while i < input_lines.len()
        invariant
            i <= input_lines@.len(),
            vals == possible_ids(input_lines@, *bag),
            checked_total(vals.subrange(0, i as int)) == Ok::<nat, SolveError>(sum as nat),
        decreases input_lines@.len() - i,
    {
        let game = parse_game(input_lines[i].as_str());
        proof {
            lemma_checked_total_step(vals, i as int);
        }
        match game {
            None => {
                proof {
                    lemma_checked_total_err(vals, i + 1);
                }
                return Err(SolveError::Malformed(i));
            },
            Some(g) => {
                let v: u32 = if g.is_game_possible(bag) {
                    g.id
                } else {
                    0
                };
                if sum > u64::MAX - v as u64 {
                    proof {
                        lemma_checked_total_err(vals, i + 1);
                    }
                    return Err(SolveError::Overflow);
                }
                sum = sum + v as u64;
            },
        }
        i = i + 1;
    }
    assert(vals.subrange(0, i as int) =~= vals);
    Ok(sum)
}

/// Sums the identifiers of the games that are possible with 12 red, 13 green
/// and 14 blue cubes.
pub fn solve_day_two_part_one(input_lines: &Vec<String>) -> (r: Result<u64, SolveError>)
    ensures
        r == as_answer(checked_total(possible_ids(input_lines@, standard_bag()))),
{
    let bag = Bag { red: 12, green: 13, blue: 14 };
    sum_possible_game_ids(input_lines, &bag)
}

/// Sums the powers of all games.
pub fn solve_day_two_part_two(input_lines: &Vec<String>) -> (r: Result<u64, SolveError>)
    ensures
        r == as_answer(checked_total(powers(input_lines@))),
{
    let ghost vals = powers(input_lines@);
    let mut sum: u64 = 0;
    let mut i: usize = 0;
    assert(vals.subrange(0, 0) =~= Seq::<Option<nat>>::empty());
    while i < input_lines.len()
        invariant
            i <= input_lines@.len(),
            vals == powers(input_lines@),
            checked_total(vals.subrange(0, i as int)) == Ok::<nat, SolveError>(sum as nat),
        decreases input_lines@.len() - i,
    {
        let game = parse_game(input_lines[i].as_str());
        proof {
            lemma_checked_total_step(vals, i as int);
        }
        match game {
            None => {
                proof {
                    lemma_checked_total_err(vals, i + 1);
                }
                return Err(SolveError::Malformed(i));
            },
            Some(g) => {
                let v = g.calc_power_of_set();
                if v > (u64::MAX - sum) as u128 {
                    proof {
                        lemma_checked_total_err(vals, i + 1);
                    }
                    return Err(SolveError::Overflow);
                }
                sum = sum + v as u64;
            },
        }
        i = i + 1;
    }
    assert(vals.subrange(0, i as int) =~= vals);
    Ok(sum)
}

} // verus!
