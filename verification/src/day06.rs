//! Exponential population simulator.
//!
//! The population is a histogram of nine buckets keyed by days remaining
//! until reproduction.  Each simulated day rotates the histogram: bucket
//! zero's count reproduces, seeding a fresh bucket eight and rejoining
//! the cycle at bucket six.  The answer is the total population after a
//! fixed number of days.

use vstd::prelude::*;
use crate::InputMode;
use crate::sums::{lemma_entry_le_sum, lemma_sum9, lemma_sum_nonneg, nonneg, seq_sum};
use crate::text::{
    all_parse_i64, chars_of, ints_of, parse_i64_all, spec_split, spec_trim, split_char,
    trim_chars, vals_of, views_of,
};

verus! {

/// One simulated day: every bucket shifts down by one; the count that
/// reaches zero moves to bucket eight and also rejoins bucket six.
pub open spec fn spec_day(v: Seq<int>) -> Seq<int>
    recommends
        v.len() == 9,
{
    seq![v[1], v[2], v[3], v[4], v[5], v[6], v[7] + v[0], v[8], v[0]]
}

/// The histogram after `n` simulated days.
pub open spec fn spec_iterate(v: Seq<int>, n: nat) -> Seq<int>
    decreases n,
{
    if n == 0 {
        v
    } else {
        spec_iterate(spec_day(v), (n - 1) as nat)
    }
}

/// Law: one simulated day never shrinks the total population.
pub proof fn lemma_population_monotone(v: Seq<int>)
    requires
        v.len() == 9,
        nonneg(v),
    ensures
        spec_day(v).len() == 9,
        nonneg(spec_day(v)),
        seq_sum(spec_day(v)) >= seq_sum(v),
{
    lemma_sum9(v);
    lemma_sum9(spec_day(v));
}

/// Law: the total population is monotonically non-decreasing over any
/// number of simulated days.
pub proof fn lemma_iterate_monotone(v: Seq<int>, n: nat)
    requires
        v.len() == 9,
        nonneg(v),
    ensures
        spec_iterate(v, n).len() == 9,
        nonneg(spec_iterate(v, n)),
        seq_sum(spec_iterate(v, n)) >= seq_sum(v),
    decreases n,
{
    if n > 0 {
        lemma_population_monotone(v);
        lemma_iterate_monotone(spec_day(v), (n - 1) as nat);
    }
}

/// The histogram of a list of ages, all in `0 ..= 8`.
pub open spec fn hist_of(ages: Seq<int>) -> Seq<int>
    decreases ages.len(),
{
    if ages.len() == 0 {
        seq![0int, 0int, 0int, 0int, 0int, 0int, 0int, 0int, 0int]
    } else {
        let h = hist_of(ages.drop_last());
        h.update(ages.last(), h[ages.last()] + 1)
    }
}

/// Whether every age lies in the nine histogram buckets.
pub open spec fn ages_in_range(ages: Seq<int>) -> bool {
    forall|i: int| 0 <= i < ages.len() ==> 0 <= #[trigger] ages[i] <= 8
}

pub proof fn lemma_hist_shape(ages: Seq<int>)
    requires
        ages_in_range(ages),
    ensures
        hist_of(ages).len() == 9,
        nonneg(hist_of(ages)),
        seq_sum(hist_of(ages)) == ages.len(),
    decreases ages.len(),
{
    if ages.len() > 0 {
        assert(ages_in_range(ages.drop_last()));
        lemma_hist_shape(ages.drop_last());
        let h = hist_of(ages.drop_last());
        let a = ages.last();
        assert(ages[ages.len() - 1] == a);
        assert(0 <= a <= 8);
        assert(hist_of(ages) == h.update(a, h[a] + 1));
        assert(hist_of(ages)[a] == h[a] + 1);
        assert(forall|i: int| 0 <= i < 9 && i != a ==> hist_of(ages)[i] == h[i]);
        lemma_sum9(h);
        lemma_sum9(hist_of(ages));
        assert(seq_sum(hist_of(ages)) == seq_sum(h) + 1);
        assert(seq_sum(h) == ages.drop_last().len());
    } else {
        lemma_sum9(hist_of(ages));
    }
}

/// The comma-separated age tokens of the input, after trimming.
pub open spec fn age_tokens(s: Seq<char>) -> Seq<Seq<char>> {
    spec_split(spec_trim(s), ',')
}

/// The ages spelled by the input.
pub open spec fn ages_of(s: Seq<char>) -> Seq<int> {
    vals_of(age_tokens(s))
}

/// Whether the input is a well-formed age list.
pub open spec fn input_ok(s: Seq<char>) -> bool {
    all_parse_i64(age_tokens(s)) && ages_in_range(ages_of(s))
}

/// Whether the input is well formed and the simulated population stays
/// within the result type for `days` days.
pub open spec fn day06_ok(s: Seq<char>, days: nat) -> bool {
    input_ok(s) && seq_sum(spec_iterate(hist_of(ages_of(s)), days)) <= i64::MAX
}

/// The total population after `days` simulated days.
pub open spec fn spec_population(s: Seq<char>, days: nat) -> int {
    seq_sum(spec_iterate(hist_of(ages_of(s)), days))
}

/// Advances the histogram day by day, reporting the final total, or
/// `None` as soon as the population exceeds the result type.
fn run_days(h: &mut [i64; 9], days: u64) -> (r: Option<i64>)
    requires
        nonneg(ints_of(old(h)@)),
    ensures
        (r is Some) == (seq_sum(spec_iterate(ints_of(old(h)@), days as nat)) <= i64::MAX),
        (match r {
            Some(total) => {
                &&& total == seq_sum(spec_iterate(ints_of(old(h)@), days as nat))
                &&& ints_of(final(h)@) == spec_iterate(ints_of(old(h)@), days as nat)
            },
            None => true,
        }),
{
    let ghost v0 = ints_of(old(h)@);
    let ghost goal = spec_iterate(v0, days as nat);
    let mut t: u64 = 0;
    while t < days
        invariant
            t <= days,
            ints_of(h@).len() == 9,
            nonneg(ints_of(h@)),
            goal == spec_iterate(ints_of(h@), (days - t) as nat),
            v0 == ints_of(old(h)@),
            goal == spec_iterate(v0, days as nat),
        decreases days - t,
    {
        let ghost cur = ints_of(h@);
        let ghost nxt = spec_day(cur);
        proof {
            lemma_population_monotone(cur);
            lemma_iterate_monotone(nxt, (days - t - 1) as nat);
            assert(spec_iterate(cur, (days - t) as nat) == spec_iterate(
                nxt,
                (days - t - 1) as nat,
            ));
        }
        let a0 = h[0];
        let a1 = h[1];
        let a2 = h[2];
        let a3 = h[3];
        let a4 = h[4];
        let a5 = h[5];
        let a6 = h[6];
        let a7 = h[7];
        let a8 = h[8];
        let big: i128 = a7 as i128 + a0 as i128;
        if big > i64::MAX as i128 {
            proof {
                lemma_entry_le_sum(nxt, 6);
                assert(seq_sum(goal) >= seq_sum(nxt));
                assert(seq_sum(goal) > i64::MAX);
            }
            return None;
        }
        let n6 = a7 + a0;
        h[0] = a1;
        h[1] = a2;
        h[2] = a3;
        h[3] = a4;
        h[4] = a5;
        h[5] = a6;
        h[6] = n6;
        h[7] = a8;
        h[8] = a0;
        proof {
            assert(ints_of(h@) =~= nxt);
        }
        t += 1;
    }
    proof {
        assert(ints_of(h@) == goal);
        lemma_sum9(ints_of(h@));
        lemma_sum_nonneg(ints_of(h@));
    }
    let total: i128 = h[0] as i128 + h[1] as i128 + h[2] as i128 + h[3] as i128 + h[4] as i128
        + h[5] as i128 + h[6] as i128 + h[7] as i128 + h[8] as i128;
    if total > i64::MAX as i128 {
        None
    } else {
        Some(total as i64)
    }
}

/// Simulates `n` days of population growth in place.
pub fn iterate_age_distr(age_distr: &mut [i64; 9], n: u64)
    requires
        nonneg(ints_of(old(age_distr)@)),
        seq_sum(spec_iterate(ints_of(old(age_distr)@), n as nat)) <= i64::MAX,
    ensures
        ints_of(final(age_distr)@) == spec_iterate(ints_of(old(age_distr)@), n as nat),
{
    let r = run_days(age_distr, n);
    proof {
        assert(r is Some);
    }
}

/// Parses the comma-separated age list.
fn parse_ages(input: &String) -> (r: Option<Vec<i64>>)
    ensures
        (r is Some) == all_parse_i64(age_tokens(input@)),
        (match r {
            Some(vs) => ints_of(vs@) == ages_of(input@),
            None => true,
        }),
{
    let cs = chars_of(input.as_str());
    let tr = trim_chars(&cs);
    let toks = split_char(&tr, ',');
    proof {
        assert(views_of(toks@) =~= age_tokens(input@));
    }
    match parse_i64_all(&toks) {
        None => None,
        Some(vs) => {
            proof {
                assert(ints_of(vs@) =~= ages_of(input@));
            }
            Some(vs)
        },
    }
}

/// Builds the initial histogram, or reports an out-of-range age or an
/// age list too long for the result type.
fn build_hist(vs: &Vec<i64>) -> (r: Option<[i64; 9]>)
    ensures
        (r is Some) == (ages_in_range(ints_of(vs@)) && vs@.len() <= i64::MAX),
        (match r {
            Some(h) => ints_of(h@) == hist_of(ints_of(vs@)),
            None => true,
        }),
{
    let ghost ages = ints_of(vs@);
    if vs.len() as u64 > i64::MAX as u64 {
        return None;
    }
    let mut h: [i64; 9] = [0, 0, 0, 0, 0, 0, 0, 0, 0];
    proof {
        assert(ints_of(h@) =~= hist_of(ages.subrange(0, 0)));
    }
    let n = vs.len();
    let mut i: usize = 0;
    while i < n
        invariant
            i <= n,
            n == vs@.len(),
            n <= i64::MAX,
            ages == ints_of(vs@),
            ages_in_range(ages.subrange(0, i as int)),
            ints_of(h@) == hist_of(ages.subrange(0, i as int)),
        decreases n - i,
    {
        let ghost pre = ages.subrange(0, i as int);
        let ghost post = ages.subrange(0, i + 1 as int);
        proof {
            assert(post.drop_last() =~= pre);
        }
        let a = vs[i];
        if a < 0 || a > 8 {
            proof {
                assert(ages[i as int] == a as int);
                assert(!ages_in_range(ages));
            }
            return None;
        }
        proof {
            assert(ages_in_range(post));
            lemma_hist_shape(pre);
            lemma_entry_le_sum(hist_of(pre), a as int);
        }
        let idx = a as usize;
        h[idx] = h[idx] + 1;
        proof {
            assert(ints_of(h@) =~= hist_of(post));
        }
        i += 1;
    }
    proof {
        assert(ages.subrange(0, n as int) =~= ages);
    }
    Some(h)
}

/// Computes the population after `days` simulated days, or reports a
/// malformed input or a population beyond the result type.
pub fn try_population(input: &String, days: u64) -> (r: Option<i64>)
    ensures
        (r is Some) == day06_ok(input@, days as nat),
        (match r {
            Some(v) => v == spec_population(input@, days as nat),
            None => true,
        }),
{
    let vs = match parse_ages(input) {
        None => {
            return None;
        },
        Some(vs) => vs,
    };
    let mut h = match build_hist(&vs) {
        None => {
            proof {
                if input_ok(input@) {
                    // the age list is longer than the result type holds,
                    // so the final population is as well
                    lemma_hist_shape(ages_of(input@));
                    lemma_iterate_monotone(hist_of(ages_of(input@)), days as nat);
                }
            }
            return None;
        },
        Some(h) => h,
    };
    proof {
        lemma_hist_shape(ages_of(input@));
    }
    run_days(&mut h, days)
}

/// The total population after 80 simulated days.
pub fn solve_part1(input: &String, _input_mode: &InputMode) -> (r: i64)
    requires
        day06_ok(input@, 80),
    ensures
        r == spec_population(input@, 80),
{
    match try_population(input, 80) {
        Some(v) => v,
        None => {
            proof {
                assert(false);
            }
            0
        },
    }
}

/// The total population after 256 simulated days.
pub fn solve_part2(input: &String, _input_mode: &InputMode) -> (r: i64)
    requires
        day06_ok(input@, 256),
    ensures
        r == spec_population(input@, 256),
{
    match try_population(input, 256) {
        Some(v) => v,
        None => {
            proof {
                assert(false);
            }
            0
        },
    }
}

} // verus!
