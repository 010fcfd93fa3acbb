//! Engine schematics: a grid of digits, `.` filler and symbols. Horizontal
//! runs of digits next to a symbol are part numbers; a `*` next to exactly two
//! part numbers is a gear.
use vstd::prelude::*;
use crate::text::{
    all_digits, as_answer, byte_is_digit, decimal_value, digit_run, is_digit,
    lemma_digit_run_bound, line_bytes, parse_decimal, skip_digits, sum_of, text_bytes, SolveError,
};

verus! {

/// The grid of a schematic: the bytes of each line.
pub open spec fn grid_of(lines: Seq<String>) -> Seq<Seq<u8>> {
    lines.map_values(|l: String| text_bytes(l@))
}

/// A cell that is neither a digit nor the filler `.`.
pub open spec fn is_symbol(b: u8) -> bool {
    !is_digit(b) && b != '.' as u8
}

/// A cell in bounds of its row.
pub open spec fn in_grid(g: Seq<Seq<u8>>, r: int, c: int) -> bool {
    0 <= r < g.len() && 0 <= c < g[r].len()
}

/// Some cell among the eight around `(r, c)`, or `(r, c)` itself, is a symbol.
pub open spec fn near_symbol(g: Seq<Seq<u8>>, r: int, c: int) -> bool {
    exists|rr: int, cc: int|
        r - 1 <= rr <= r + 1 && c - 1 <= cc <= c + 1 && in_grid(g, rr, cc) && is_symbol(
            #[trigger] g[rr][cc],
        )
}

/// The run of digits `row[a..e]` touches a symbol.
pub open spec fn run_near_symbol(g: Seq<Seq<u8>>, r: int, a: int, e: int) -> bool {
    exists|c: int| a <= c < e && #[trigger] near_symbol(g, r, c)
}

/// The part numbers of row `r` whose runs start at or after column `c`, left
/// to right; `c` is taken to be at the start of a run or outside one.
pub open spec fn parts_from(g: Seq<Seq<u8>>, r: int, c: int) -> Seq<nat>
    decreases g[r].len() - c,
    via parts_from_decreases
{
    if c < 0 || c >= g[r].len() {
        Seq::empty()
    } else if is_digit(g[r][c]) {
        let e: int = c + 1 + digit_run(g[r], c + 1);
        if run_near_symbol(g, r, c, e) {
            seq![decimal_value(g[r].subrange(c, e))] + parts_from(g, r, e)
        } else {
            parts_from(g, r, e)
        }
    } else {
        parts_from(g, r, c + 1)
    }
}

#[via_fn]
proof fn parts_from_decreases(g: Seq<Seq<u8>>, r: int, c: int) {
    if 0 <= c < g[r].len() {
        lemma_digit_run_bound(g[r], c + 1);
    }
}

/// The part numbers of rows `0..n`, row by row.
pub open spec fn grid_parts(g: Seq<Seq<u8>>, n: int) -> Seq<nat>
    decreases n,
{
    if n <= 0 {
        Seq::empty()
    } else {
        grid_parts(g, n - 1) + parts_from(g, n - 1, 0)
    }
}

/// Every row is as long as the first.
pub open spec fn is_rectangular(g: Seq<Seq<u8>>) -> bool {
    forall|r: int| 0 <= r < g.len() ==> (#[trigger] g[r]).len() == g[0].len()
}

/// `r` is the first row whose length differs from the first row's.
pub open spec fn first_ragged_row(g: Seq<Seq<u8>>, r: int) -> bool {
    0 <= r < g.len() && g[r].len() != g[0].len() && forall|k: int|
        0 <= k < r ==> (#[trigger] g[k]).len() == g[0].len()
}

/// Every part number fits in `u32`.
pub open spec fn parts_fit(g: Seq<Seq<u8>>) -> bool {
    forall|r: int, k: int|
        0 <= r < g.len() && 0 <= k < parts_from(g, r, 0).len() ==> #[trigger] parts_from(
            g,
            r,
            0,
        )[k] <= u32::MAX
}

/// Tells a grid that is not rectangular by its first ragged row.
fn check_rectangular(engine_specs: &Vec<String>) -> (r: Result<(), SolveError>)
    ensures
        r is Ok <==> is_rectangular(grid_of(engine_specs@)),
        r matches Err(e) ==> exists|k: int|
            first_ragged_row(grid_of(engine_specs@), k) && e == SolveError::Malformed(k as usize),
{
    let ghost g = grid_of(engine_specs@);
    if engine_specs.len() == 0 {
        return Ok(());
    }
    let w = line_bytes(&engine_specs[0]).len();
    let mut r: usize = 0;
    while r < engine_specs.len()
        invariant
            g == grid_of(engine_specs@),
            g.len() > 0,
            w == g[0].len(),
            r <= g.len(),
            forall|k: int| 0 <= k < r ==> (#[trigger] g[k]).len() == g[0].len(),
        decreases g.len() - r,
    {
        if line_bytes(&engine_specs[r]).len() != w {
            assert(first_ragged_row(g, r as int));
            return Err(SolveError::Malformed(r));
        }
        r = r + 1;
    }
    Ok(())
}

/// Whether the cell `(line, column)` or one of its eight neighbours holds a
/// symbol; neighbours outside the grid do not count.
pub fn is_adjacent(line: usize, column: usize, vector: &Vec<String>) -> (r: bool)
    requires
        line < vector@.len(),
    ensures
        r == near_symbol(grid_of(vector@), line as int, column as int),
{
    let ghost g = grid_of(vector@);
    let first_row: usize = if line == 0 {
        0
    } else {
        line - 1
    };
    let h = vector.len();
    let last_row: usize = if line < h - 1 {
        line + 1
    } else {
        line
    };
    let first_col: usize = if column == 0 {
        0
    } else {
        column - 1
    };
    let last_col: usize = if column < usize::MAX {
        column + 1
    } else {
        column
    };
    let mut rr: usize = first_row;
    while rr <= last_row
        invariant
            g == grid_of(vector@),
            line < g.len(),
            first_row == if line == 0 { 0 } else { line - 1 },
            last_row == if line + 1 < g.len() { line + 1 } else { line as int },
            h == g.len(),
            first_col == if column == 0 { 0 } else { column - 1 },
            last_col == if column < usize::MAX { column + 1 } else { column as int },
            first_row <= rr <= last_row + 1,
            forall|a: int, b: int|
                first_row <= a < rr && column - 1 <= b <= column + 1 && in_grid(g, a, b)
                    ==> !is_symbol(#[trigger] g[a][b]),
        decreases last_row + 1 - rr,
    {
        let row = line_bytes(&vector[rr]);
        let mut cc: usize = first_col;
        let rl = row.len();
        while cc <= last_col && cc < rl
            invariant
                g == grid_of(vector@),
                row@ == g[rr as int],
                rl == row@.len(),
                rr < g.len(),
                line < g.len(),
                first_row <= rr <= last_row,
                first_row == if line == 0 { 0 } else { line - 1 },
                last_row == if line + 1 < g.len() { line + 1 } else { line as int },
                first_col == if column == 0 { 0 } else { column - 1 },
                last_col == if column < usize::MAX { column + 1 } else { column as int },
                first_col <= cc,
                forall|a: int, b: int|
                    first_row <= a < rr && column - 1 <= b <= column + 1 && in_grid(g, a, b)
                        ==> !is_symbol(#[trigger] g[a][b]),
                forall|b: int|
                    column - 1 <= b < cc && b <= column + 1 && in_grid(g, rr as int, b)
                        ==> !is_symbol(#[trigger] g[rr as int][b]),
            decreases row@.len() - cc,
        {
            let b = row[cc];
            if !byte_is_digit(b) && b != '.' as u8 {
                assert(is_symbol(g[rr as int][cc as int]));
                assert(in_grid(g, rr as int, cc as int));
                assert(near_symbol(g, line as int, column as int));
                return true;
            }
            cc = cc + 1;
        }
        rr = rr + 1;
    }
    proof {
        assert forall|a: int, b: int|
            line - 1 <= a <= line + 1 && column - 1 <= b <= column + 1 && in_grid(g, a, b)
                implies !is_symbol(#[trigger] g[a][b]) by {
            assert(first_row <= a <= last_row);
        }
    }
    false
}

/// A run of digits being read: where it starts and ends, and whether a cell
/// of it so far touches a symbol.
pub struct DigitsBuffer {
    pub is_adjacent: bool,
    pub start: usize,
    pub end: usize,
}

impl DigitsBuffer {
    /// An empty run that touches nothing.
    pub fn new() -> (b: DigitsBuffer)
        ensures
            !b.is_adjacent,
            b.start == 0,
            b.end == 0,
    {
        DigitsBuffer { is_adjacent: false, start: 0, end: 0 }
    }

    /// The run holds digits and touches a symbol.
    pub fn can_be_captured(&self) -> (r: bool)
        ensures
            r == (self.is_adjacent && self.start < self.end),
    {
        self.is_adjacent && self.start < self.end
    }
}

fn push_part(out: &mut Vec<u32>, v: u32)
    ensures
        nats_of_u32(final(out)@) == nats_of_u32(old(out)@).push(v as nat),
{
    out.push(v);
    assert(nats_of_u32(final(out)@) =~= nats_of_u32(old(out)@).push(v as nat));
}

/// Unsigned 32-bit values as naturals.
pub open spec fn nats_of_u32(v: Seq<u32>) -> Seq<nat> {
    v.map_values(|x: u32| x as nat)
}

/// Appends the part numbers of row `r`.
fn row_parts(engine_specs: &Vec<String>, r: usize, out: &mut Vec<u32>) -> (res: Result<(), SolveError>)
    requires
        r < engine_specs@.len(),
    ensures
        res matches Ok(()) ==> nats_of_u32(final(out)@) == nats_of_u32(old(out)@) + parts_from(
            grid_of(engine_specs@),
            r as int,
            0,
        ),
        res matches Err(e) ==> e == SolveError::Overflow && exists|k: int|
            0 <= k < parts_from(grid_of(engine_specs@), r as int, 0).len() && #[trigger] parts_from(
                grid_of(engine_specs@),
                r as int,
                0,
            )[k] > u32::MAX,
{
    let ghost g = grid_of(engine_specs@);
    let ghost all = parts_from(g, r as int, 0);
    let ghost out0 = nats_of_u32(out@);
    let row = line_bytes(&engine_specs[r]);
    let w = row.len();
    let mut c: usize = 0;
    while c < w
        invariant
            g == grid_of(engine_specs@),
            r < g.len(),
            row@ == g[r as int],
            w == row@.len(),
            c <= w,
            all == parts_from(g, r as int, 0),
            out0 + all == nats_of_u32(out@) + parts_from(g, r as int, c as int),
            nats_of_u32(out@).len() >= out0.len(),
        decreases w - c,
    {
        if byte_is_digit(row[c]) {
            let mut buffer = DigitsBuffer::new();
            buffer.start = c;
            let e = skip_digits(row, c);
            let mut k: usize = c;
            while k < e
                invariant
                    g == grid_of(engine_specs@),
                    r < g.len(),
                    row@ == g[r as int],
                    buffer.start == c,
                    c <= k <= e,
                    e <= row@.len(),
                    buffer.is_adjacent == run_near_symbol(g, r as int, c as int, k as int),
                decreases e - k,
            {
                if !buffer.is_adjacent && is_adjacent(r, k, engine_specs) {
                    buffer.is_adjacent = true;
                }
                proof {
                    if run_near_symbol(g, r as int, c as int, k + 1) && !near_symbol(g, r as int, k as int) {
                        let t = choose|t: int| c <= t < k + 1 && #[trigger] near_symbol(g, r as int, t);
                        assert(c <= t < k);
                    }
                }
                k = k + 1;
            }
            buffer.end = e;
            assert(e == c + 1 + digit_run(g[r as int], c + 1));
            let ghost rest = parts_from(g, r as int, e as int);
            assert(row@.subrange(c as int, e as int) == g[r as int].subrange(c as int, e as int));
            if buffer.can_be_captured() {
                assert(parts_from(g, r as int, c as int) == seq![
                    decimal_value(row@.subrange(c as int, e as int)),
                ] + rest);
                match parse_decimal(row, c, e) {
                    Some(v) => {
                        if v > u32::MAX as u64 {
                            proof {
                                let idx = nats_of_u32(out@).len() - out0.len();
                                let pf = parts_from(g, r as int, c as int);
                                assert((out0 + all).len() == (nats_of_u32(out@) + pf).len());
                                assert((nats_of_u32(out@) + pf)[nats_of_u32(out@).len() as int] == pf[0]);
                                assert((out0 + all)[nats_of_u32(out@).len() as int] == v);
                                assert(all[idx] == v);
                            }
                            return Err(SolveError::Overflow);
                        }
                        let ghost before = nats_of_u32(out@);
                        push_part(out, v as u32);
                        assert(before + (seq![v as nat] + rest) =~= before.push(v as nat) + rest);
                    },
                    None => {
                        proof {
                            let idx = nats_of_u32(out@).len() - out0.len();
                            let pf = parts_from(g, r as int, c as int);
                            assert((out0 + all).len() == (nats_of_u32(out@) + pf).len());
                            assert((nats_of_u32(out@) + pf)[nats_of_u32(out@).len() as int] == pf[0]);
                            assert((out0 + all)[nats_of_u32(out@).len() as int] > u32::MAX);
                            assert(all[idx] > u32::MAX);
                        }
                        return Err(SolveError::Overflow);
                    },
                }
            }
            c = e;
        } else {
            c = c + 1;
        }
    }
    assert(nats_of_u32(out@) + Seq::<nat>::empty() =~= nats_of_u32(out@));
    Ok(())
}

/// The part numbers of the whole schematic, row by row and left to right. A
/// grid whose rows differ in length is malformed; a part number beyond `u32`
/// is an overflow.
pub fn parse_engine_specs(engine_specs: &Vec<String>) -> (r: Result<Vec<u32>, SolveError>)
    ensures
        r is Ok <==> is_rectangular(grid_of(engine_specs@)) && parts_fit(grid_of(engine_specs@)),
        r matches Ok(v) ==> nats_of_u32(v@) == grid_parts(
            grid_of(engine_specs@),
            engine_specs@.len() as int,
        ),
        r matches Err(SolveError::Malformed(k)) ==> first_ragged_row(
            grid_of(engine_specs@),
            k as int,
        ),
        r matches Err(SolveError::Overflow) ==> is_rectangular(grid_of(engine_specs@)),
{
    let ghost g = grid_of(engine_specs@);
    let n = engine_specs.len();
    match check_rectangular(engine_specs) {
        Err(e) => {
            proof {
                let k0 = choose|k: int| first_ragged_row(g, k) && e == SolveError::Malformed(k as usize);
                assert(k0 as usize as int == k0);
            }
            return Err(e);
        },
        Ok(()) => {},
    }
    let mut out: Vec<u32> = Vec::new();
    let mut r: usize = 0;
    assert(nats_of_u32(out@) =~= grid_parts(g, 0));
    while r < engine_specs.len()
        invariant
            g == grid_of(engine_specs@),
            is_rectangular(g),
            r <= g.len(),
            nats_of_u32(out@) == grid_parts(g, r as int),
            forall|rr: int, k: int|
                0 <= rr < r && 0 <= k < parts_from(g, rr, 0).len() ==> #[trigger] parts_from(
                    g,
                    rr,
                    0,
                )[k] <= u32::MAX,
        decreases g.len() - r,
    {
        let ghost before = nats_of_u32(out@);
        match row_parts(engine_specs, r, &mut out) {
            Err(e) => {
                return Err(e);
            },
            Ok(()) => {},
        }
        proof {
            let p = parts_from(g, r as int, 0);
            assert(nats_of_u32(out@).len() == out@.len());
            assert forall|k: int| 0 <= k < p.len() implies #[trigger] p[k] <= u32::MAX by {
                assert((before + p)[before.len() + k] == p[k]);
                assert(nats_of_u32(out@)[before.len() + k] == out@[before.len() + k] as nat);
            }
        }
        r = r + 1;
    }
    Ok(out)
}

/// `r` is the first ragged row, so no other row is.
proof fn lemma_first_ragged_unique(g: Seq<Seq<u8>>, a: int, b: int)
    requires
        first_ragged_row(g, a),
        first_ragged_row(g, b),
    ensures
        a == b,
{
    if a < b {
        assert(g[a].len() == g[0].len());
    }
    if b < a {
        assert(g[b].len() == g[0].len());
    }
}

/// The answer over a schematic: the first ragged row, else an overflow when
/// some value does not fit (`fits` fails) or the total is beyond `u64`, else
/// the total.
pub open spec fn schematic_answer(g: Seq<Seq<u8>>, total: nat, fits: bool) -> Result<
    nat,
    SolveError,
> {
    if !is_rectangular(g) {
        Err(SolveError::Malformed((choose|k: int| first_ragged_row(g, k)) as usize))
    } else if !fits || total > u64::MAX {
        Err(SolveError::Overflow)
    } else {
        Ok(total)
    }
}

proof fn lemma_malformed_answer(g: Seq<Seq<u8>>, k: int, total: nat, fits: bool)
    requires
        first_ragged_row(g, k),
    ensures
        schematic_answer(g, total, fits) == Err::<nat, SolveError>(
            SolveError::Malformed(k as usize),
        ),
{
    let c = choose|j: int| first_ragged_row(g, j);
    lemma_first_ragged_unique(g, c, k);
}

proof fn lemma_sum_prefix(v: Seq<nat>, k: int)
    requires
        0 <= k <= v.len(),
    ensures
        sum_of(v.subrange(0, k)) <= sum_of(v),
    decreases v.len() - k,
{
    if k < v.len() {
        lemma_sum_prefix(v, k + 1);
        assert(v.subrange(0, k + 1).drop_last() =~= v.subrange(0, k));
    } else {
        assert(v.subrange(0, k) =~= v);
    }
}

/// Adds up 32-bit values; `None` when the sum does not fit in `u64`.
fn sum_parts(v: &Vec<u32>) -> (r: Option<u64>)
    ensures
        r is Some <==> sum_of(nats_of_u32(v@)) <= u64::MAX,
        r matches Some(t) ==> t == sum_of(nats_of_u32(v@)),
{
    let ghost p = nats_of_u32(v@);
    let mut total: u64 = 0;
    let mut k: usize = 0;
    assert(p.subrange(0, 0) =~= Seq::<nat>::empty());
    while k < v.len()
        invariant
            p == nats_of_u32(v@),
            k <= v@.len(),
            total == sum_of(p.subrange(0, k as int)),
        decreases v@.len() - k,
    {
        assert(p.subrange(0, k + 1).drop_last() =~= p.subrange(0, k as int));
        if total > u64::MAX - v[k] as u64 {
            proof {
                lemma_sum_prefix(p, k + 1);
            }
            return None;
        }
        total = total + v[k] as u64;
        k = k + 1;
    }
    assert(p.subrange(0, k as int) =~= p);
    Some(total)
}

/// Sums the part numbers of the schematic.
pub fn solve_day_three_part_one(input_lines: &Vec<String>) -> (r: Result<u64, SolveError>)
    ensures
        r == as_answer(
            schematic_answer(
                grid_of(input_lines@),
                sum_of(grid_parts(grid_of(input_lines@), input_lines@.len() as int)),
                parts_fit(grid_of(input_lines@)),
            ),
        ),
{
    let ghost g = grid_of(input_lines@);
    match parse_engine_specs(input_lines) {
        Err(SolveError::Malformed(k)) => {
            proof {
                lemma_malformed_answer(g, k as int, sum_of(grid_parts(g, g.len() as int)), parts_fit(g));
            }
            Err(SolveError::Malformed(k))
        },
        Err(SolveError::Overflow) => Err(SolveError::Overflow),
        Ok(parts) => match sum_parts(&parts) {
            Some(t) => Ok(t),
            None => Err(SolveError::Overflow),
        },
    }
}

/// The runs of digits of `row` (row `rr` of the grid) found by scanning from
/// column `c` that reach into the columns `col - 1 ..= col + 1`, as
/// `(row, start, end)`.
pub open spec fn touching_from(row: Seq<u8>, rr: int, col: int, c: int) -> Seq<(int, int, int)>
    decreases row.len() - c,
    via touching_from_decreases
{
    if c < 0 || c >= row.len() {
        Seq::empty()
    } else if is_digit(row[c]) {
        let e: int = c + 1 + digit_run(row, c + 1);
        if c <= col + 1 && col <= e {
            seq![(rr, c, e)] + touching_from(row, rr, col, e)
        } else {
            touching_from(row, rr, col, e)
        }
    } else {
        touching_from(row, rr, col, c + 1)
    }
}

#[via_fn]
proof fn touching_from_decreases(row: Seq<u8>, rr: int, col: int, c: int) {
    if 0 <= c < row.len() {
        lemma_digit_run_bound(row, c + 1);
    }
}

/// The runs of digits next to the cell `(r, c)`: in the row above, the same
/// row and the row below.
pub open spec fn gear_runs(g: Seq<Seq<u8>>, r: int, c: int) -> Seq<(int, int, int)> {
    (if r >= 1 {
        touching_from(g[r - 1], r - 1, c, 0)
    } else {
        Seq::empty()
    }) + touching_from(g[r], r, c, 0) + (if r + 1 < g.len() {
        touching_from(g[r + 1], r + 1, c, 0)
    } else {
        Seq::empty()
    })
}

/// The number that a run `(row, start, end)` spells.
pub open spec fn run_value(g: Seq<Seq<u8>>, t: (int, int, int)) -> nat {
    decimal_value(g[t.0].subrange(t.1, t.2))
}

/// A `*` with exactly two runs of digits next to it.
pub open spec fn is_gear(g: Seq<Seq<u8>>, r: int, c: int) -> bool {
    in_grid(g, r, c) && g[r][c] == '*' as u8 && gear_runs(g, r, c).len() == 2
}

/// The product of a gear's two numbers; zero for any other cell.
pub open spec fn gear_ratio(g: Seq<Seq<u8>>, r: int, c: int) -> nat {
    if is_gear(g, r, c) {
        run_value(g, gear_runs(g, r, c)[0]) * run_value(g, gear_runs(g, r, c)[1])
    } else {
        0
    }
}

/// The gear ratios of the cells `0..n` of row `r`.
pub open spec fn ratios_in_row(g: Seq<Seq<u8>>, r: int, n: int) -> nat
    decreases n,
{
    if n <= 0 {
        0
    } else {
        ratios_in_row(g, r, n - 1) + gear_ratio(g, r, n - 1)
    }
}

/// The gear ratios of rows `0..n`.
pub open spec fn ratios_total(g: Seq<Seq<u8>>, n: int) -> nat
    decreases n,
{
    if n <= 0 {
        0
    } else {
        ratios_total(g, n - 1) + ratios_in_row(g, n - 1, g[n - 1].len() as int)
    }
}

/// Both numbers of every gear fit in `u64`.
pub open spec fn gears_fit(g: Seq<Seq<u8>>) -> bool {
    forall|r: int, c: int|
        #[trigger] is_gear(g, r, c) ==> run_value(g, gear_runs(g, r, c)[0]) <= u64::MAX
            && run_value(g, gear_runs(g, r, c)[1]) <= u64::MAX
}

/// A run of digits of the grid, as `(row, start, end)`.
pub open spec fn is_run(g: Seq<Seq<u8>>, t: (int, int, int)) -> bool {
    0 <= t.0 < g.len() && 0 <= t.1 < t.2 <= g[t.0].len() && all_digits(g[t.0].subrange(t.1, t.2))
}

pub open spec fn triples(v: Seq<(usize, usize, usize)>) -> Seq<(int, int, int)> {
    v.map_values(|t: (usize, usize, usize)| (t.0 as int, t.1 as int, t.2 as int))
}

fn push_triple(out: &mut Vec<(usize, usize, usize)>, t: (usize, usize, usize))
    ensures
        triples(final(out)@) == triples(old(out)@).push((t.0 as int, t.1 as int, t.2 as int)),
{
    out.push(t);
    assert(triples(final(out)@) =~= triples(old(out)@).push((t.0 as int, t.1 as int, t.2 as int)));
}

/// Appends the runs of row `rr` that reach the columns next to `col`.
fn collect_touching(
    engine_specs: &Vec<String>,
    rr: usize,
    col: usize,
    out: &mut Vec<(usize, usize, usize)>,
)
    requires
        rr < engine_specs@.len(),
        forall|k: int| 0 <= k < old(out)@.len() ==> is_run(grid_of(engine_specs@), #[trigger] triples(old(out)@)[k]),
    ensures
        triples(final(out)@) == triples(old(out)@) + touching_from(
            grid_of(engine_specs@)[rr as int],
            rr as int,
            col as int,
            0,
        ),
        forall|k: int| 0 <= k < final(out)@.len() ==> is_run(grid_of(engine_specs@), #[trigger] triples(final(out)@)[k]),
{
    let ghost g = grid_of(engine_specs@);
    let ghost out0 = triples(out@);
    let ghost all = touching_from(g[rr as int], rr as int, col as int, 0);
    let row = line_bytes(&engine_specs[rr]);
    let w = row.len();
    let mut c: usize = 0;
    while c < w
        invariant
            g == grid_of(engine_specs@),
            rr < g.len(),
            row@ == g[rr as int],
            w == row@.len(),
            c <= w,
            all == touching_from(g[rr as int], rr as int, col as int, 0),
            out0 + all == triples(out@) + touching_from(g[rr as int], rr as int, col as int, c as int),
            forall|k: int| 0 <= k < out@.len() ==> is_run(g, #[trigger] triples(out@)[k]),
        decreases w - c,
    {
        if byte_is_digit(row[c]) {
            let e = skip_digits(row, c);
            assert(e == c + 1 + digit_run(row@, c + 1));
            let ghost rest = touching_from(g[rr as int], rr as int, col as int, e as int);
            if (c <= col || c - col <= 1) && col <= e {
                let ghost before = triples(out@);
                push_triple(out, (rr, c, e));
                assert(before + (seq![(rr as int, c as int, e as int)] + rest) =~= before.push(
                    (rr as int, c as int, e as int),
                ) + rest);
                assert forall|k: int| 0 <= k < out@.len() implies is_run(g, #[trigger] triples(out@)[k]) by {
                    if k < before.len() {
                        assert(triples(out@)[k] == before[k]);
                    }
                }
            }
            c = e;
        } else {
            c = c + 1;
        }
    }
    assert(triples(out@) + Seq::<(int, int, int)>::empty() =~= triples(out@));
}

/// The runs of digits next to the cell `(r, c)`.
fn find_gear_runs(engine_specs: &Vec<String>, r: usize, c: usize) -> (v: Vec<(usize, usize, usize)>)
    requires
        r < engine_specs@.len(),
    ensures
        triples(v@) == gear_runs(grid_of(engine_specs@), r as int, c as int),
        forall|k: int| 0 <= k < v@.len() ==> is_run(grid_of(engine_specs@), #[trigger] triples(v@)[k]),
{
    let ghost g = grid_of(engine_specs@);
    let mut out: Vec<(usize, usize, usize)> = Vec::new();
    assert(triples(out@) =~= Seq::<(int, int, int)>::empty());
    if r >= 1 {
        collect_touching(engine_specs, r - 1, c, &mut out);
    }
    let ghost above = triples(out@);
    collect_touching(engine_specs, r, c, &mut out);
    if r < engine_specs.len() - 1 {
        collect_touching(engine_specs, r + 1, c, &mut out);
    }
    assert(triples(out@) =~= gear_runs(g, r as int, c as int));
    out
}

proof fn lemma_ratios_in_row_grows(g: Seq<Seq<u8>>, r: int, a: int, b: int)
    requires
        0 <= a <= b,
    ensures
        ratios_in_row(g, r, a) <= ratios_in_row(g, r, b),
    decreases b - a,
{
    if a < b {
        lemma_ratios_in_row_grows(g, r, a, b - 1);
    }
}

proof fn lemma_ratios_total_grows(g: Seq<Seq<u8>>, a: int, b: int)
    requires
        0 <= a <= b,
    ensures
        ratios_total(g, a) <= ratios_total(g, b),
    decreases b - a,
{
    if a < b {
        lemma_ratios_total_grows(g, a, b - 1);
    }
}

/// Sums the gear ratios of the schematic: for every `*` next to exactly two
/// runs of digits, the product of their numbers.
pub fn solve_day_three_part_two(input_lines: &Vec<String>) -> (r: Result<u64, SolveError>)
    ensures
        r == as_answer(
            schematic_answer(
                grid_of(input_lines@),
                ratios_total(grid_of(input_lines@), input_lines@.len() as int),
                gears_fit(grid_of(input_lines@)),
            ),
        ),
{
    let ghost g = grid_of(input_lines@);
    let ghost h = g.len() as int;
    match check_rectangular(input_lines) {
        Err(e) => {
            proof {
                let k = choose|k: int| first_ragged_row(g, k) && e == SolveError::Malformed(k as usize);
                lemma_malformed_answer(g, k, ratios_total(g, h), gears_fit(g));
            }
            return Err(e);
        },
        Ok(()) => {},
    }
    let mut total: u64 = 0;
    let mut r: usize = 0;
    while r < input_lines.len()
        invariant
            g == grid_of(input_lines@),
            h == g.len(),
            is_rectangular(g),
            r <= h,
            total == ratios_total(g, r as int),
            forall|rr: int, cc: int| 0 <= rr < r && #[trigger] is_gear(g, rr, cc) ==> run_value(
                g,
                gear_runs(g, rr, cc)[0],
            ) <= u64::MAX && run_value(g, gear_runs(g, rr, cc)[1]) <= u64::MAX,
        decreases h - r,
    {
        let row = line_bytes(&input_lines[r]);
        let mut c: usize = 0;
        while c < row.len()
            invariant
                g == grid_of(input_lines@),
                h == g.len(),
                is_rectangular(g),
                r < h,
                row@ == g[r as int],
                c <= row@.len(),
                total == ratios_total(g, r as int) + ratios_in_row(g, r as int, c as int),
                forall|rr: int, cc: int| 0 <= rr < r && #[trigger] is_gear(g, rr, cc) ==> run_value(
                    g,
                    gear_runs(g, rr, cc)[0],
                ) <= u64::MAX && run_value(g, gear_runs(g, rr, cc)[1]) <= u64::MAX,
                forall|cc: int| 0 <= cc < c && #[trigger] is_gear(g, r as int, cc) ==> run_value(
                    g,
                    gear_runs(g, r as int, cc)[0],
                ) <= u64::MAX && run_value(g, gear_runs(g, r as int, cc)[1]) <= u64::MAX,
            decreases row@.len() - c,
        {
            let mut ratio: u64 = 0;
            if row[c] == '*' as u8 {
                let runs = find_gear_runs(input_lines, r, c);
                if runs.len() == 2 {
                    let (r0, a0, e0) = runs[0];
                    let (r1, a1, e1) = runs[1];
                    proof {
                        assert(is_run(g, triples(runs@)[0]));
                        assert(is_run(g, triples(runs@)[1]));
                        assert(is_gear(g, r as int, c as int));
                    }
                    let row0 = line_bytes(&input_lines[r0]);
                    let row1 = line_bytes(&input_lines[r1]);
                    let v0 = parse_decimal(row0, a0, e0);
                    let v1 = parse_decimal(row1, a1, e1);
                    if v0.is_none() || v1.is_none() {
                        return Err(SolveError::Overflow);
                    }
                    let v0 = v0.unwrap();
                    let v1 = v1.unwrap();
                    if v0 != 0 && v1 > u64::MAX / v0 {
                        proof {
                            assert(v0 * v1 > u64::MAX) by (nonlinear_arith)
                                requires
                                    v0 != 0,
                                    v1 > u64::MAX / v0,
                            ;
                            lemma_ratios_in_row_grows(g, r as int, c + 1, g[r as int].len() as int);
                            lemma_ratios_total_grows(g, r + 1, h);
                        }
                        return Err(SolveError::Overflow);
                    }
                    proof {
                        assert(v0 * v1 <= u64::MAX) by (nonlinear_arith)
                            requires
                                v0 == 0 || v1 <= u64::MAX / v0,
                        ;
                    }
                    ratio = v0 * v1;
                }
            }
            assert(ratio == gear_ratio(g, r as int, c as int));
            if total > u64::MAX - ratio {
                proof {
                    lemma_ratios_in_row_grows(g, r as int, c + 1, g[r as int].len() as int);
                    lemma_ratios_total_grows(g, r + 1, h);
                }
                return Err(SolveError::Overflow);
            }
            total = total + ratio;
            c = c + 1;
        }
        r = r + 1;
    }
    Ok(total)
}

proof fn lemma_sum_concat(a: Seq<nat>, b: Seq<nat>)
    ensures
        sum_of(a + b) == sum_of(a) + sum_of(b),
    decreases b.len(),
{
    if b.len() > 0 {
        assert((a + b).drop_last() =~= a + b.drop_last());
        lemma_sum_concat(a, b.drop_last());
    } else {
        assert(a + b =~= a);
    }
}

proof fn lemma_digit_run_same(x: Seq<u8>, y: Seq<u8>, i: int)
    requires
        x.len() == y.len(),
        forall|k: int| 0 <= k < x.len() ==> is_digit(#[trigger] x[k]) == is_digit(y[k]),
    ensures
        digit_run(x, i) == digit_run(y, i),
    decreases x.len() - i,
{
    if 0 <= i < x.len() {
        lemma_digit_run_same(x, y, i + 1);
    }
}

proof fn lemma_digit_run_digits(x: Seq<u8>, i: int, k: int)
    requires
        0 <= i <= k < i + digit_run(x, i),
    ensures
        k < x.len() && is_digit(x[k]),
    decreases k - i,
{
    if i < k {
        lemma_digit_run_digits(x, i + 1, k);
    }
}

/// The grid with the cell `(r, c)` replaced by `b`.
pub open spec fn with_cell(g: Seq<Seq<u8>>, r: int, c: int, b: u8) -> Seq<Seq<u8>> {
    g.update(r, g[r].update(c, b))
}

proof fn lemma_fewer_parts_in_row(g: Seq<Seq<u8>>, r: int, c: int, b: u8, rr: int, x: int)
    requires
        in_grid(g, r, c),
        is_symbol(g[r][c]),
        !is_digit(b),
        0 <= rr < g.len(),
    ensures
        sum_of(parts_from(with_cell(g, r, c, b), rr, x)) <= sum_of(parts_from(g, rr, x)),
    decreases g[rr].len() - x,
{
    let h = with_cell(g, r, c, b);
    let row = g[rr];
    let row2 = h[rr];
    assert(row2.len() == row.len());
    assert forall|k: int| 0 <= k < row.len() implies is_digit(#[trigger] row[k]) == is_digit(
        row2[k],
    ) by {
        if rr == r && k == c {
        }
    }
    if 0 <= x < row.len() {
        if is_digit(row[x]) {
            lemma_digit_run_same(row, row2, x + 1);
            let e: int = x + 1 + digit_run(row, x + 1);
            lemma_digit_run_bound(row, x + 1);
            lemma_fewer_parts_in_row(g, r, c, b, rr, e);
            assert(row2.subrange(x, e) =~= row.subrange(x, e)) by {
                if rr == r {
                    if x <= c < e {
                        if c > x {
                            lemma_digit_run_digits(row, x + 1, c);
                        }
                    }
                }
            }
            if run_near_symbol(h, rr, x, e) {
                let k = choose|k: int| x <= k < e && #[trigger] near_symbol(h, rr, k);
                let (ar, ac) = choose|ar: int, ac: int|
                    rr - 1 <= ar <= rr + 1 && k - 1 <= ac <= k + 1 && in_grid(h, ar, ac) && is_symbol(
                        #[trigger] h[ar][ac],
                    );
                assert(is_symbol(g[ar][ac]));
                assert(near_symbol(g, rr, k));
                assert(run_near_symbol(g, rr, x, e));
            }
            let v = decimal_value(row.subrange(x, e));
            lemma_sum_concat(seq![v], parts_from(h, rr, e));
            lemma_sum_concat(seq![v], parts_from(g, rr, e));
            assert(sum_of(seq![v]) == v) by {
                assert(seq![v].drop_last() =~= Seq::<nat>::empty());
                reveal_with_fuel(sum_of, 2);
            }
        } else {
            lemma_fewer_parts_in_row(g, r, c, b, rr, x + 1);
        }
    }
}

/// Turning a symbol cell into a cell that is not a digit (the filler `.`,
/// say) never raises the sum of the part numbers: the runs stay the same and
/// each loses neighbours at most.
pub proof fn lemma_removing_symbol_never_raises_sum(g: Seq<Seq<u8>>, r: int, c: int, b: u8)
    requires
        in_grid(g, r, c),
        is_symbol(g[r][c]),
        !is_digit(b),
    ensures
        sum_of(grid_parts(with_cell(g, r, c, b), g.len() as int)) <= sum_of(
            grid_parts(g, g.len() as int),
        ),
{
    lemma_fewer_parts_in_grid(g, r, c, b, g.len() as int);
}

proof fn lemma_fewer_parts_in_grid(g: Seq<Seq<u8>>, r: int, c: int, b: u8, n: int)
    requires
        in_grid(g, r, c),
        is_symbol(g[r][c]),
        !is_digit(b),
        0 <= n <= g.len(),
    ensures
        sum_of(grid_parts(with_cell(g, r, c, b), n)) <= sum_of(grid_parts(g, n)),
    decreases n,
{
    if n > 0 {
        let h = with_cell(g, r, c, b);
        lemma_fewer_parts_in_grid(g, r, c, b, n - 1);
        lemma_fewer_parts_in_row(g, r, c, b, n - 1, 0);
        lemma_sum_concat(grid_parts(h, n - 1), parts_from(h, n - 1, 0));
        lemma_sum_concat(grid_parts(g, n - 1), parts_from(g, n - 1, 0));
    }
}

/// A cell that is neither a symbol nor a digit is the filler `.`, so putting
/// another such cell in its place leaves the grid, and every answer on it, as
/// it was.
pub proof fn lemma_replacing_filler_changes_nothing(g: Seq<Seq<u8>>, r: int, c: int, b: u8)
    requires
        in_grid(g, r, c),
        !is_symbol(g[r][c]) && !is_digit(g[r][c]),
        !is_symbol(b) && !is_digit(b),
    ensures
        with_cell(g, r, c, b) == g,
        sum_of(grid_parts(with_cell(g, r, c, b), g.len() as int)) == sum_of(
            grid_parts(g, g.len() as int),
        ),
{
    assert(g[r].update(c, b) =~= g[r]);
    assert(with_cell(g, r, c, b) =~= g);
}

} // verus!
