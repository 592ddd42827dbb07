//! Sequential-increase counter.
//!
//! The input is a newline-delimited list of integer depth readings.  Part
//! one counts how often a reading exceeds the one before it; part two
//! does the same over sums of three consecutive readings.

use vstd::prelude::*;
use crate::InputMode;
use crate::text::{
    all_parse_i64, chars_of, ints_of, lines_of, parse_i64_all, spec_lines, vals_of, views_of,
};

verus! {

/// The integer readings spelled by the input's records.
pub open spec fn depth_values(s: Seq<char>) -> Seq<int> {
    vals_of(spec_lines(s))
}

/// How many elements of `d` exceed their immediate predecessor.  The
/// first element has no predecessor and is never counted.
pub open spec fn count_increases(d: Seq<int>) -> int
    decreases d.len(),
{
    if d.len() <= 1 {
        0
    } else {
        count_increases(d.drop_last()) + if d[d.len() - 2] < d.last() {
            1int
        } else {
            0int
        }
    }
}

/// The sums of each window of three consecutive readings.
pub open spec fn window_sums(d: Seq<int>) -> Seq<int> {
    if d.len() >= 3 {
        Seq::new((d.len() - 2) as nat, |i: int| d[i] + d[i + 1] + d[i + 2])
    } else {
        Seq::<int>::empty()
    }
}

/// Whether the input is a well-formed reading list for part one: at least
/// one record, each an `i64`, and few enough records that the count fits
/// the result type.
pub open spec fn part1_ok(s: Seq<char>) -> bool {
    &&& spec_lines(s).len() >= 1
    &&& spec_lines(s).len() <= i64::MAX
    &&& all_parse_i64(spec_lines(s))
}

pub open spec fn part1_answer(s: Seq<char>) -> int {
    count_increases(depth_values(s))
}

/// Part two needs at least one full window of three readings.
pub open spec fn part2_ok(s: Seq<char>) -> bool {
    &&& spec_lines(s).len() >= 3
    &&& spec_lines(s).len() <= i64::MAX
    &&& all_parse_i64(spec_lines(s))
}

pub open spec fn part2_answer(s: Seq<char>) -> int {
    count_increases(window_sums(depth_values(s)))
}

/// Parses the reading list, or reports a malformed input.
fn parse_depths(input: &String) -> (r: Option<Vec<i64>>)
    ensures
        (r is Some) == all_parse_i64(spec_lines(input@)),
        (match r {
            Some(ds) => ints_of(ds@) == depth_values(input@),
            None => true,
        }),
{
    let cs = chars_of(input.as_str());
    let ls = lines_of(&cs);
    proof {
        assert(views_of(ls@) =~= spec_lines(input@));
    }
    match parse_i64_all(&ls) {
        None => None,
        Some(ds) => {
            proof {
                assert(ints_of(ds@) =~= depth_values(input@));
            }
            Some(ds)
        },
    }
}

/// Counts increases over consecutive readings, or reports a malformed
/// input.
pub fn try_part1(input: &String) -> (r: Option<i64>)
    ensures
        (r is Some) == part1_ok(input@),
        (match r {
            Some(v) => v == part1_answer(input@),
            None => true,
        }),
{
    let ds = match parse_depths(input) {
        None => {
            return None;
        },
        Some(ds) => ds,
    };
    proof {
        assert(ints_of(ds@).len() == ds@.len());
        assert(depth_values(input@).len() == spec_lines(input@).len());
        assert(ds@.len() == spec_lines(input@).len());
    }
    if ds.len() == 0 || ds.len() as u64 > i64::MAX as u64 {
        return None;
    }
    let ghost d = depth_values(input@);
    let n = ds.len();
    let mut count: u64 = 0;
    let mut i: usize = 1;
    while i < n
        invariant
            1 <= i <= n,
            n == ds@.len(),
            d == ints_of(ds@),
            count == count_increases(d.subrange(0, i as int)),
            count < i,
        decreases n - i,
    {
        proof {
            assert(d.subrange(0, i + 1 as int).drop_last() =~= d.subrange(0, i as int));
        }
        if ds[i - 1] < ds[i] {
            count = count + 1;
        }
        i += 1;
    }
    proof {
        assert(d.subrange(0, n as int) =~= d);
    }
    Some(count as i64)
}

/// Counts increases over three-reading window sums, or reports a
/// malformed input.
pub fn try_part2(input: &String) -> (r: Option<i64>)
    ensures
        (r is Some) == part2_ok(input@),
        (match r {
            Some(v) => v == part2_answer(input@),
            None => true,
        }),
{
    let ds = match parse_depths(input) {
        None => {
            return None;
        },
        Some(ds) => ds,
    };
    proof {
        assert(ints_of(ds@).len() == ds@.len());
        assert(depth_values(input@).len() == spec_lines(input@).len());
        assert(ds@.len() == spec_lines(input@).len());
    }
    if ds.len() < 3 || ds.len() as u64 > i64::MAX as u64 {
        return None;
    }
    let ghost d = depth_values(input@);
    let ghost w = window_sums(d);
    let n = ds.len();
    let m = n - 2;
    let mut count: u64 = 0;
    let mut j: usize = 1;
    proof {
        assert(w.len() == m);
    }
    while j < m
        invariant
            1 <= j <= m,
            m == n - 2,
            n == ds@.len(),
            n >= 3,
            d == ints_of(ds@),
            w == window_sums(d),
            w.len() == m,
            count == count_increases(w.subrange(0, j as int)),
            count < j,
        decreases m - j,
    {
        proof {
            assert(w.subrange(0, j + 1 as int).drop_last() =~= w.subrange(0, j as int));
        }
        let prev: i128 = ds[j - 1] as i128 + ds[j] as i128 + ds[j + 1] as i128;
        let cur: i128 = ds[j] as i128 + ds[j + 1] as i128 + ds[j + 2] as i128;
        proof {
            assert(prev == w[j - 1 as int]);
            assert(cur == w[j as int]);
        }
        if prev < cur {
            count = count + 1;
        }
        j += 1;
    }
    proof {
        assert(w.subrange(0, m as int) =~= w);
    }
    Some(count as i64)
}

/// Counts how many readings exceed their immediate predecessor.
pub fn solve_part1(input: &String, _input_mode: &InputMode) -> (r: i64)
    requires
        part1_ok(input@),
    ensures
        r == part1_answer(input@),
{
    match try_part1(input) {
        Some(v) => v,
        None => {
            proof {
                assert(false);
            }
            0
        },
    }
}

/// Counts how many three-reading window sums exceed the previous window's
/// sum.
pub fn solve_part2(input: &String, _input_mode: &InputMode) -> (r: i64)
    requires
        part2_ok(input@),
    ensures
        r == part2_answer(input@),
{
    match try_part2(input) {
        Some(v) => v,
        None => {
            proof {
                assert(false);
            }
            0
        },
    }
}

} // verus!
