//! Snack packs: blocks of calorie counts separated by lines that are not
//! numbers; each closed block adds up to one pack, and the packs come out
//! largest first.
use vstd::prelude::*;
use crate::text::{
    all_digits, byte_is_digit, decimal_value, is_digit, line_bytes, parse_decimal, text_bytes,
};

verus! {

broadcast use {vstd::seq_lib::to_multiset_build, vstd::seq_lib::to_multiset_insert};

/// A line read as an unsigned 64-bit number: an optional `+` and at least
/// one digit, of a value that fits.
pub open spec fn snack_value(s: Seq<u8>) -> Option<nat> {
    let d = if s.len() > 0 && s[0] == '+' as u8 {
        s.drop_first()
    } else {
        s
    };
    if d.len() > 0 && all_digits(d) && decimal_value(d) <= u64::MAX {
        Some(decimal_value(d))
    } else {
        None
    }
}

/// The value of each line, in order.
pub open spec fn snack_values(lines: Seq<String>) -> Seq<Option<nat>> {
    lines.map_values(|l: String| snack_value(text_bytes(l@)))
}

/// Running through the lines: the packs closed so far (each line that is not
/// a number closes one) and the total of the pack still open. `None` once a
/// running total leaves `u64`.
pub open spec fn tally(vals: Seq<Option<nat>>) -> Option<(Seq<u64>, u64)>
    decreases vals.len(),
{
    if vals.len() == 0 {
        Some((Seq::empty(), 0))
    } else {
        match tally(vals.drop_last()) {
            None => None,
            Some((packs, cur)) => match vals.last() {
                Some(v) => if cur + v > u64::MAX {
                    None
                } else {
                    Some((packs, (cur + v) as u64))
                },
                None => Some((packs.push(cur), 0)),
            },
        }
    }
}

/// Largest first.
pub open spec fn sorted_descending(s: Seq<u64>) -> bool {
    forall|i: int, j: int| 0 <= i < j < s.len() ==> s[i] >= s[j]
}

/// Reads one line as a number.
fn read_snack(line: &String) -> (r: Option<u64>)
    ensures
        match r {
            Some(v) => snack_value(text_bytes(line@)) == Some(v as nat),
            None => snack_value(text_bytes(line@)) is None,
        },
{
    let s = line_bytes(line);
    let start: usize = if s.len() > 0 && s[0] == '+' as u8 {
        1
    } else {
        0
    };
    let ghost d = s@.subrange(start as int, s@.len() as int);
    assert(d =~= if s@.len() > 0 && s@[0] == '+' as u8 {
        s@.drop_first()
    } else {
        s@
    });
    if start == s.len() {
        return None;
    }
    let mut k: usize = start;
    while k < s.len()
        invariant
            start <= k <= s@.len(),
            d == s@.subrange(start as int, s@.len() as int),
            s@ == text_bytes(line@),
            d == if s@.len() > 0 && s@[0] == '+' as u8 {
                s@.drop_first()
            } else {
                s@
            },
            forall|t: int| start <= t < k ==> is_digit(#[trigger] s@[t]),
        decreases s@.len() - k,
    {
        if !byte_is_digit(s[k]) {
            assert(d[k - start] == s@[k as int]);
            assert(!all_digits(d));
            return None;
        }
        k = k + 1;
    }
    assert(all_digits(d)) by {
        assert forall|t: int| 0 <= t < d.len() implies is_digit(#[trigger] d[t]) by {
            assert(d[t] == s@[start + t]);
        }
    }
    parse_decimal(s, start, s.len())
}

/// Puts `x` into `out`, keeping it largest first.
fn insert_descending(out: &mut Vec<u64>, x: u64)
    requires
        sorted_descending(old(out)@),
    ensures
        sorted_descending(final(out)@),
        final(out)@.to_multiset() == old(out)@.to_multiset().insert(x),
{
    let mut pos: usize = 0;
    while pos < out.len() && out[pos] >= x
        invariant
            pos <= out@.len(),
            forall|t: int| 0 <= t < pos ==> out@[t] >= x,
        decreases out@.len() - pos,
    {
        pos = pos + 1;
    }
    let ghost before = out@;
    out.insert(pos, x);
    assert(sorted_descending(out@)) by {
        assert forall|i: int, j: int| 0 <= i < j < out@.len() implies out@[i] >= out@[j] by {
            if j < pos {
            } else if j == pos {
            } else if i < pos {
                assert(out@[j] == before[j - 1]);
            } else if i == pos {
                assert(before[pos as int] < x);
                assert(out@[j] == before[j - 1]);
            } else {
                assert(out@[i] == before[i - 1]);
                assert(out@[j] == before[j - 1]);
            }
        }
    }
}

/// The totals of the closed packs, largest first; `None` when a running total
/// does not fit in `u64`. A pack that no line closes is left out.
pub fn sort_packs(snacks: Vec<String>) -> (r: Option<Vec<u64>>)
    ensures
        r is Some <==> tally(snack_values(snacks@)) is Some,
        r matches Some(v) ==> tally(snack_values(snacks@)) matches Some((packs, _)) && sorted_descending(v@)
            && v@.to_multiset() == packs.to_multiset(),
{
    let ghost vals = snack_values(snacks@);
    let mut packs: Vec<u64> = Vec::new();
    let mut current: u64 = 0;
    let mut i: usize = 0;
    assert(vals.subrange(0, 0) =~= Seq::<Option<nat>>::empty());
    assert(packs@.to_multiset() =~= Seq::<u64>::empty().to_multiset());
    while i < snacks.len()
        invariant
            i <= snacks@.len(),
            vals == snack_values(snacks@),
            tally(vals.subrange(0, i as int)) matches Some((p, c)) && c == current
                && sorted_descending(packs@) && packs@.to_multiset() == p.to_multiset(),
        decreases snacks@.len() - i,
    {
        assert(vals.subrange(0, i + 1).drop_last() =~= vals.subrange(0, i as int));
        match read_snack(&snacks[i]) {
            Some(v) => {
                if current > u64::MAX - v {
                    proof {
                        lemma_tally_stays_none(vals, i + 1);
                    }
                    return None;
                }
                current = current + v;
            },
            None => {
                insert_descending(&mut packs, current);
                current = 0;
            },
        }
        i = i + 1;
    }
    assert(vals.subrange(0, i as int) =~= vals);
    Some(packs)
}

proof fn lemma_tally_stays_none(vals: Seq<Option<nat>>, n: int)
    requires
        0 <= n <= vals.len(),
        tally(vals.subrange(0, n)) is None,
    ensures
        tally(vals) is None,
    decreases vals.len() - n,
{
    if n < vals.len() {
        assert(vals.subrange(0, n + 1).drop_last() =~= vals.subrange(0, n));
        lemma_tally_stays_none(vals, n + 1);
    } else {
        assert(vals.subrange(0, n) =~= vals);
    }
}

} // verus!
