//! Byte-level helpers shared by the solvers: digits, decimal numerals,
//! and the checked totals that every solver reports.
use vstd::prelude::*;
use vstd::utf8::encode_utf8;

verus! {

/// The bytes of a line of text, as UTF-8 encodes it.
pub open spec fn text_bytes(s: Seq<char>) -> Seq<u8> {
    encode_utf8(s)
}

pub open spec fn is_digit(b: u8) -> bool {
    48 <= b <= 57
}

pub open spec fn digit_value(b: u8) -> nat {
    (b - 48) as nat
}

/// The value of a run of decimal digits, most significant first.
pub open spec fn decimal_value(s: Seq<u8>) -> nat
    decreases s.len(),
{
    if s.len() == 0 {
        0
    } else {
        decimal_value(s.drop_last()) * 10 + digit_value(s.last())
    }
}

pub open spec fn all_digits(s: Seq<u8>) -> bool {
    forall|i: int| 0 <= i < s.len() ==> is_digit(#[trigger] s[i])
}

/// The number of spaces that start at position `i`.
pub open spec fn space_run(s: Seq<u8>, i: int) -> nat
    decreases s.len() - i,
{
    if 0 <= i < s.len() && s[i] == 32 {
        1 + space_run(s, i + 1)
    } else {
        0
    }
}

/// The number of decimal digits that start at position `i`.
pub open spec fn digit_run(s: Seq<u8>, i: int) -> nat
    decreases s.len() - i,
{
    if 0 <= i < s.len() && is_digit(s[i]) {
        1 + digit_run(s, i + 1)
    } else {
        0
    }
}

/// A run of digits ends within the text.
pub proof fn lemma_digit_run_bound(s: Seq<u8>, i: int)
    requires
        0 <= i <= s.len(),
    ensures
        i + digit_run(s, i) <= s.len(),
    decreases s.len() - i,
{
    if i < s.len() {
        lemma_digit_run_bound(s, i + 1);
    }
}

/// Unsigned 64-bit values as naturals.
pub open spec fn nats(v: Seq<u64>) -> Seq<nat> {
    v.map_values(|x: u64| x as nat)
}

/// The bytes `w` stand in `s` from position `i` on.
pub open spec fn word_here(s: Seq<u8>, i: int, w: Seq<u8>) -> bool {
    0 <= i && i + w.len() <= s.len() && s.subrange(i, i + w.len()) == w
}

/// Why a solver gives no answer.
#[derive(Clone, Copy, Debug, PartialEq, Eq, Structural)]
pub enum SolveError {
    /// The line at this index does not follow the puzzle's format.
    Malformed(usize),
    /// The answer does not fit in 64 bits.
    Overflow,
}

/// Adds up per-line values in input order, stopping at the first line that has
/// no value (it is malformed) or at the first partial sum that leaves `u64`.
pub open spec fn checked_total(vals: Seq<Option<nat>>) -> Result<nat, SolveError>
    decreases vals.len(),
{
    if vals.len() == 0 {
        Ok(0)
    } else {
        match checked_total(vals.drop_last()) {
            Err(e) => Err(e),
            Ok(s) => match vals.last() {
                None => Err(SolveError::Malformed((vals.len() - 1) as usize)),
                Some(v) => if s + v > u64::MAX {
                    Err(SolveError::Overflow)
                } else {
                    Ok(s + v)
                },
            },
        }
    }
}

/// A checked total as the `u64` that a solver returns.
pub open spec fn as_answer(t: Result<nat, SolveError>) -> Result<u64, SolveError> {
    match t {
        Ok(v) => Ok(v as u64),
        Err(e) => Err(e),
    }
}

/// The plain sum of a sequence of naturals.
pub open spec fn sum_of(vals: Seq<nat>) -> nat
    decreases vals.len(),
{
    if vals.len() == 0 {
        0
    } else {
        sum_of(vals.drop_last()) + vals.last()
    }
}

/// What a successful total means: it succeeds exactly when every line has a
/// value and the plain sum of the values fits in `u64`, and then it is that sum.
pub proof fn lemma_checked_total_is_sum(vals: Seq<Option<nat>>)
    ensures
        checked_total(vals) is Ok <==> (forall|i: int|
            0 <= i < vals.len() ==> (#[trigger] vals[i]) is Some) && sum_of(values_of(vals))
            <= u64::MAX,
        checked_total(vals) is Ok ==> checked_total(vals) == Ok::<nat, SolveError>(
            sum_of(values_of(vals)),
        ),
    decreases vals.len(),
{
    if vals.len() > 0 {
        let init = vals.drop_last();
        lemma_checked_total_is_sum(init);
        assert(values_of(init) =~= values_of(vals).drop_last());
        if exists|i: int| 0 <= i < init.len() && !((#[trigger] init[i]) is Some) {
            let i = choose|i: int| 0 <= i < init.len() && !((#[trigger] init[i]) is Some);
            assert(!(vals[i] is Some));
        }
        if vals.last() is None {
            assert(!(vals[vals.len() - 1] is Some));
        }
        assert(forall|i: int| 0 <= i < init.len() ==> init[i] == vals[i]);
    }
}

/// The values of lines that all have one.
pub open spec fn values_of(vals: Seq<Option<nat>>) -> Seq<nat> {
    vals.map_values(|o: Option<nat>| o.unwrap())
}

/// Once a prefix of the lines has failed, the whole total fails the same way.
pub proof fn lemma_checked_total_err(vals: Seq<Option<nat>>, n: int)
    requires
        0 <= n <= vals.len(),
        checked_total(vals.subrange(0, n)) is Err,
    ensures
        checked_total(vals) == checked_total(vals.subrange(0, n)),
    decreases vals.len() - n,
{
    if n < vals.len() {
        assert(vals.subrange(0, n + 1).drop_last() =~= vals.subrange(0, n));
        lemma_checked_total_err(vals, n + 1);
    } else {
        assert(vals.subrange(0, n) =~= vals);
    }
}

/// The total over one more line, from the total over the lines before it.
pub proof fn lemma_checked_total_step(vals: Seq<Option<nat>>, n: int)
    requires
        0 <= n < vals.len(),
    ensures
        checked_total(vals.subrange(0, n + 1)) == match checked_total(vals.subrange(0, n)) {
            Err(e) => Err(e),
            Ok(s) => match vals[n] {
                None => Err(SolveError::Malformed(n as usize)),
                Some(v) => if s + v > u64::MAX {
                    Err(SolveError::Overflow)
                } else {
                    Ok(s + v)
                },
            },
        },
{
    assert(vals.subrange(0, n + 1).drop_last() =~= vals.subrange(0, n));
}

/// Skips the spaces that start at position `i`.
pub fn skip_spaces(s: &[u8], i: usize) -> (j: usize)
    requires
        i <= s@.len(),
    ensures
        j == i + space_run(s@, i as int),
        j <= s@.len(),
{
    let mut j: usize = i;
    while j < s.len() && s[j] == 32
        invariant
            i <= j <= s@.len(),
            i + space_run(s@, i as int) == j + space_run(s@, j as int),
        decreases s@.len() - j,
    {
        j = j + 1;
    }
    j
}

/// Finds the end of the run of digits that starts at position `i`.
pub fn skip_digits(s: &[u8], i: usize) -> (j: usize)
    requires
        i <= s@.len(),
    ensures
        j == i + digit_run(s@, i as int),
        j <= s@.len(),
        all_digits(s@.subrange(i as int, j as int)),
{
    let mut j: usize = i;
    while j < s.len() && byte_is_digit(s[j])
        invariant
            i <= j <= s@.len(),
            i + digit_run(s@, i as int) == j + digit_run(s@, j as int),
            all_digits(s@.subrange(i as int, j as int)),
        decreases s@.len() - j,
    {
        assert(s@.subrange(i as int, j + 1)[j - i] == s@[j as int]);
        j = j + 1;
    }
    j
}

/// Whether the bytes `w` stand in `s` from position `i` on.
pub fn has_word(s: &[u8], i: usize, w: &Vec<u8>) -> (r: bool)
    ensures
        r == word_here(s@, i as int, w@),
{
    if w.len() > s.len() || i > s.len() - w.len() {
        return false;
    }
    let n = s.len();
    let mut j: usize = 0;
    while j < w.len()
        invariant
            n == s@.len(),
            j <= w@.len(),
            i + w@.len() <= s@.len(),
            forall|t: int| 0 <= t < j ==> s@[i + t] == w@[t],
        decreases w@.len() - j,
    {
        if s[i + j] != w[j] {
            assert(s@.subrange(i as int, i + w@.len())[j as int] != w@[j as int]);
            return false;
        }
        j = j + 1;
    }
    assert(s@.subrange(i as int, i + w@.len()) =~= w@);
    true
}

/// The bytes of a line.
pub fn line_bytes(s: &String) -> (b: &[u8])
    ensures
        b@ == text_bytes(s@),
{
    s.as_str().as_bytes()
}

pub fn byte_is_digit(b: u8) -> (r: bool)
    ensures
        r == is_digit(b),
{
    48 <= b && b <= 57
}

proof fn lemma_decimal_prefix_grows(s: Seq<u8>, i: int, j: int)
    requires
        0 <= i <= j <= s.len(),
    ensures
        decimal_value(s.subrange(0, i)) <= decimal_value(s.subrange(0, j)),
    decreases j - i,
{
    if i < j {
        lemma_decimal_prefix_grows(s, i, j - 1);
        assert(s.subrange(0, j).drop_last() =~= s.subrange(0, j - 1));
    }
}

/// Reads the digits `s[start..end]` as a decimal numeral; `None` when its value
/// does not fit in `u64`.
pub fn parse_decimal(s: &[u8], start: usize, end: usize) -> (r: Option<u64>)
    requires
        start <= end <= s@.len(),
        all_digits(s@.subrange(start as int, end as int)),
    ensures
        r is Some <==> decimal_value(s@.subrange(start as int, end as int)) <= u64::MAX,
        r is Some ==> r->Some_0 == decimal_value(s@.subrange(start as int, end as int)),
{
    let ghost t = s@.subrange(start as int, end as int);
    let mut acc: u64 = 0;
    let mut i: usize = start;
    while i < end
        invariant
            start <= i <= end <= s@.len(),
            t == s@.subrange(start as int, end as int),
            all_digits(t),
            acc == decimal_value(t.subrange(0, i - start)),
        decreases end - i,
    {
        assert(is_digit(t[i - start]));
        assert(t.subrange(0, i - start + 1).drop_last() =~= t.subrange(0, i - start));
        let d = (s[i] - 48) as u64;
        if acc > (u64::MAX - d) / 10 {
            proof {
                lemma_decimal_prefix_grows(t, i - start + 1, t.len() as int);
                assert(t.subrange(0, t.len() as int) =~= t);
            }
            return None;
        }
        acc = acc * 10 + d;
        i = i + 1;
    }
    assert(t.subrange(0, end - start) =~= t);
    Some(acc)
}

} // verus!
