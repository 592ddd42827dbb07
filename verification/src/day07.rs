//! Optimal meeting-point search.
//!
//! The input is a comma-separated list of one-dimensional positions.
//! Part one finds the minimal total linear displacement needed to bring
//! every position to one target point; the optimum is attained at a
//! median, so the minimum over targets drawn from the positions
//! themselves is the overall minimum.  Part two uses triangular-number
//! displacement costs and searches the band of twenty-one targets around
//! the truncated mean, which provably contains the optimum for this cost
//! function.

use vstd::prelude::*;
use crate::InputMode;
use crate::sums::{lemma_sum_prefix_le, nonneg, seq_sum};
use crate::text::{
    all_parse_i64, chars_of, ints_of, parse_i64_all, spec_split, spec_trim, split_char,
    trim_chars, vals_of, views_of,
};

verus! {

/// The absolute value of `x`.
pub open spec fn abs(x: int) -> int {
    if x < 0 {
        -x
    } else {
        x
    }
}

/// The triangular number of `d`: the cost of moving a distance `d` when
/// each further step costs one more than the last.
pub open spec fn tri(d: int) -> int {
    d * (d + 1) / 2
}

/// The positions spelled by the input.
pub open spec fn positions_of(s: Seq<char>) -> Seq<int> {
    vals_of(spec_split(spec_trim(s), ','))
}

/// Whether the input is a well-formed position list.
pub open spec fn input_ok(s: Seq<char>) -> bool {
    all_parse_i64(spec_split(spec_trim(s), ','))
}

/// The linear cost of moving every position to `t`.
pub open spec fn lin_costs(ps: Seq<int>, t: int) -> Seq<int> {
    ps.map_values(|p: int| abs(p - t))
}

pub open spec fn lin_total(ps: Seq<int>, t: int) -> int {
    seq_sum(lin_costs(ps, t))
}

/// The least linear cost over the first `k` positions taken as targets.
pub open spec fn best_lin_upto(ps: Seq<int>, k: int) -> int
    recommends
        1 <= k <= ps.len(),
    decreases k,
{
    if k <= 1 {
        lin_total(ps, ps[0])
    } else {
        let rest = best_lin_upto(ps, k - 1);
        let c = lin_total(ps, ps[k - 1]);
        if c < rest {
            c
        } else {
            rest
        }
    }
}

pub open spec fn part1_answer(s: Seq<char>) -> int {
    best_lin_upto(positions_of(s), positions_of(s).len() as int)
}

pub open spec fn part1_ok(s: Seq<char>) -> bool {
    input_ok(s) && part1_answer(s) <= i64::MAX
}

/// The triangular cost of moving every position to `t`.
pub open spec fn tri_costs(ps: Seq<int>, t: int) -> Seq<int> {
    ps.map_values(|p: int| tri(abs(p - t)))
}

pub open spec fn tri_total(ps: Seq<int>, t: int) -> int {
    seq_sum(tri_costs(ps, t))
}

/// Signed division truncating toward zero, as the machine divides.
pub open spec fn trunc_div(a: int, b: int) -> int
    recommends
        b > 0,
{
    if a >= 0 {
        a / b
    } else {
        -((-a) / b)
    }
}

/// The truncated mean of the positions.
pub open spec fn mean_of(ps: Seq<int>) -> int
    recommends
        ps.len() > 0,
{
    trunc_div(seq_sum(ps), ps.len() as int)
}

/// The least triangular cost over the first `j` of the twenty-one
/// targets centred on `m`.
pub open spec fn best_tri_upto(ps: Seq<int>, m: int, j: int) -> int
    recommends
        1 <= j <= 21,
    decreases j,
{
    if j <= 1 {
        tri_total(ps, m - 10)
    } else {
        let rest = best_tri_upto(ps, m, j - 1);
        let c = tri_total(ps, m - 10 + (j - 1));
        if c < rest {
            c
        } else {
            rest
        }
    }
}

pub open spec fn part2_answer(s: Seq<char>) -> int {
    best_tri_upto(positions_of(s), mean_of(positions_of(s)), 21)
}

pub open spec fn part2_ok(s: Seq<char>) -> bool {
    input_ok(s) && part2_answer(s) <= i64::MAX
}

/// Parses the comma-separated position list.
fn parse_positions(input: &String) -> (r: Option<Vec<i64>>)
    ensures
        (r is Some) == input_ok(input@),
        (match r {
            Some(vs) => ints_of(vs@) == positions_of(input@) && vs@.len() >= 1,
            None => true,
        }),
{
    let cs = chars_of(input.as_str());
    let tr = trim_chars(&cs);
    let toks = split_char(&tr, ',');
    proof {
        assert(views_of(toks@) =~= spec_split(spec_trim(input@), ','));
        crate::text::lemma_split_len(spec_trim(input@), ',');
    }
    match parse_i64_all(&toks) {
        None => None,
        Some(vs) => {
            proof {
                assert(ints_of(vs@) =~= positions_of(input@));
            }
            Some(vs)
        },
    }
}

/// The linear cost of moving every position to `t`, or `None` once the
/// running cost exceeds the result type.
fn lin_total_checked(vs: &Vec<i64>, t: i64) -> (r: Option<i64>)
    ensures
        (r is Some) == (lin_total(ints_of(vs@), t as int) <= i64::MAX),
        (match r {
            Some(c) => c == lin_total(ints_of(vs@), t as int),
            None => true,
        }),
{
    let ghost ps = ints_of(vs@);
    let ghost costs = lin_costs(ps, t as int);
    proof {
        assert(nonneg(costs));
    }
    let n = vs.len();
    let mut acc: i128 = 0;
    let mut i: usize = 0;
    while i < n
        invariant
            i <= n,
            n == vs@.len(),
            ps == ints_of(vs@),
            costs == lin_costs(ps, t as int),
            nonneg(costs),
            acc == seq_sum(costs.subrange(0, i as int)),
            0 <= acc <= i64::MAX,
        decreases n - i,
    {
        proof {
            assert(costs.subrange(0, i + 1 as int).drop_last() =~= costs.subrange(0, i as int));
            assert(costs[i as int] == abs(ps[i as int] - t as int));
        }
        let p = vs[i];
        let d: i128 = if p >= t {
            p as i128 - t as i128
        } else {
            t as i128 - p as i128
        };
        acc = acc + d;
        if acc > i64::MAX as i128 {
            proof {
                lemma_sum_prefix_le(costs, i + 1 as int);
                assert(costs.subrange(0, costs.len() as int) =~= costs);
            }
            return None;
        }
        i += 1;
    }
    proof {
        assert(costs.subrange(0, n as int) =~= costs);
    }
    Some(acc as i64)
}

/// The minimal total linear displacement, or `None` when it exceeds the
/// result type or the input is malformed.
pub fn try_part1(input: &String) -> (r: Option<i64>)
    ensures
        (r is Some) == part1_ok(input@),
        (match r {
            Some(v) => v == part1_answer(input@),
            None => true,
        }),
{
    let vs = match parse_positions(input) {
        None => {
            return None;
        },
        Some(vs) => vs,
    };
    let ghost ps = ints_of(vs@);
    let n = vs.len();
    let mut best: Option<i64> = lin_total_checked(&vs, vs[0]);
    let mut k: usize = 1;
    while k < n
        invariant
            1 <= k <= n,
            n == vs@.len(),
            ps == ints_of(vs@),
            (match best {
                Some(b) => b == best_lin_upto(ps, k as int) && b <= i64::MAX,
                None => best_lin_upto(ps, k as int) > i64::MAX,
            }),
        decreases n - k,
    {
        let c = lin_total_checked(&vs, vs[k]);
        best = match (best, c) {
            (Some(b), Some(cv)) => {
                if cv < b {
                    Some(cv)
                } else {
                    Some(b)
                }
            },
            (Some(b), None) => Some(b),
            (None, Some(cv)) => Some(cv),
            (None, None) => None,
        };
        k += 1;
    }
    proof {
        if best is Some {
            assert(part1_answer(input@) == best_lin_upto(ps, n as int));
        }
    }
    best
}

/// The triangular cost of moving every position to `t`, or `None` once
/// the running cost exceeds the result type.
fn tri_total_checked(vs: &Vec<i64>, t: i128) -> (r: Option<i64>)
    requires
        -0x1_0000_0000_0000_0000_0000 <= t <= 0x1_0000_0000_0000_0000_0000,
    ensures
        (r is Some) == (tri_total(ints_of(vs@), t as int) <= i64::MAX),
        (match r {
            Some(c) => c == tri_total(ints_of(vs@), t as int),
            None => true,
        }),
{
    let ghost ps = ints_of(vs@);
    let ghost costs = tri_costs(ps, t as int);
    proof {
        assert forall|i: int| 0 <= i < costs.len() implies costs[i] >= 0 by {
            let d = abs(ps[i] - t as int);
            assert(d * (d + 1) >= 0) by (nonlinear_arith)
                requires
                    d >= 0,
            ;
        }
    }
    let n = vs.len();
    let mut acc: i128 = 0;
    let mut i: usize = 0;
    while i < n
        invariant
            i <= n,
            n == vs@.len(),
            ps == ints_of(vs@),
            -0x1_0000_0000_0000_0000_0000 <= t <= 0x1_0000_0000_0000_0000_0000,
            costs == tri_costs(ps, t as int),
            nonneg(costs),
            acc == seq_sum(costs.subrange(0, i as int)),
            0 <= acc <= i64::MAX,
        decreases n - i,
    {
        proof {
            assert(costs.subrange(0, i + 1 as int).drop_last() =~= costs.subrange(0, i as int));
            assert(costs[i as int] == tri(abs(ps[i as int] - t as int)));
        }
        let p = vs[i];
        let d: i128 = if p as i128 >= t {
            p as i128 - t
        } else {
            t - p as i128
        };
        if d > 0x1_0000_0000 {
            proof {
                let dd = d as int;
                assert(tri(dd) > i64::MAX) by (nonlinear_arith)
                    requires
                        dd > 0x1_0000_0000,
                ;
                lemma_sum_prefix_le(costs, i + 1 as int);
                assert(costs.subrange(0, costs.len() as int) =~= costs);
            }
            return None;
        }
        proof {
            let dd = d as int;
            assert(0 <= dd * (dd + 1) <= 0x1_0000_0000 * 0x1_0000_0001) by (nonlinear_arith)
                requires
                    0 <= dd <= 0x1_0000_0000,
            ;
        }
        let cost: i128 = d * (d + 1) / 2;
        proof {
            assert(cost == tri(d as int));
        }
        acc = acc + cost;
        if acc > i64::MAX as i128 {
            proof {
                lemma_sum_prefix_le(costs, i + 1 as int);
                assert(costs.subrange(0, costs.len() as int) =~= costs);
            }
            return None;
        }
        i += 1;
    }
    proof {
        assert(costs.subrange(0, n as int) =~= costs);
    }
    Some(acc as i64)
}

/// The minimal total triangular displacement cost over the candidate
/// band around the mean, or `None` when it exceeds the result type or
/// the input is malformed.
pub fn try_part2(input: &String) -> (r: Option<i64>)
    ensures
        (r is Some) == part2_ok(input@),
        (match r {
            Some(v) => v == part2_answer(input@),
            None => true,
        }),
{
    let vs = match parse_positions(input) {
        None => {
            return None;
        },
        Some(vs) => vs,
    };
    let ghost ps = ints_of(vs@);
    let n = vs.len();
    // the truncated mean of the positions, computed without overflow
    let mut total: i128 = 0;
    let mut i: usize = 0;
    while i < n
        invariant
            i <= n,
            n == vs@.len(),
            n >= 1,
            ps == ints_of(vs@),
            total == seq_sum(ps.subrange(0, i as int)),
            abs(total as int) <= i * 0x8000_0000_0000_0000,
        decreases n - i,
    {
        proof {
            assert(ps.subrange(0, i + 1 as int).drop_last() =~= ps.subrange(0, i as int));
            assert((i + 1) * 0x8000_0000_0000_0000 == i * 0x8000_0000_0000_0000
                + 0x8000_0000_0000_0000) by (nonlinear_arith);
            assert(i + 1 <= 0xffff_ffff_ffff_ffff);
            assert((i + 1) * 0x8000_0000_0000_0000 <= 0xffff_ffff_ffff_ffff
                * 0x8000_0000_0000_0000) by (nonlinear_arith)
                requires
                    i + 1 <= 0xffff_ffff_ffff_ffff,
            ;
        }
        total = total + vs[i] as i128;
        i += 1;
    }
    proof {
        assert(ps.subrange(0, n as int) =~= ps);
        assert(n * 0x8000_0000_0000_0000 <= 0xffff_ffff_ffff_ffff * 0x8000_0000_0000_0000)
            by (nonlinear_arith)
            requires
                n <= 0xffff_ffff_ffff_ffff,
        ;
    }
    let mean: i128 = if total >= 0 {
        let q: u128 = (total as u128) / (n as u128);
        proof {
            vstd::arithmetic::div_mod::lemma_div_is_ordered(
                total as int,
                n * 0x8000_0000_0000_0000,
                n as int,
            );
            vstd::arithmetic::div_mod::lemma_div_multiples_vanish(
                0x8000_0000_0000_0000,
                n as int,
            );
        }
        q as i128
    } else {
        let m: i128 = -total;
        let q: u128 = (m as u128) / (n as u128);
        proof {
            vstd::arithmetic::div_mod::lemma_div_is_ordered(
                m as int,
                n * 0x8000_0000_0000_0000,
                n as int,
            );
            vstd::arithmetic::div_mod::lemma_div_multiples_vanish(
                0x8000_0000_0000_0000,
                n as int,
            );
        }
        -(q as i128)
    };
    proof {
        assert(mean == mean_of(ps));
        assert(abs(mean as int) <= 0x8000_0000_0000_0000);
    }
    let mut best: Option<i64> = tri_total_checked(&vs, mean - 10);
    let mut j: usize = 1;
    while j < 21
        invariant
            1 <= j <= 21,
            n == vs@.len(),
            n >= 1,
            ps == ints_of(vs@),
            mean == mean_of(ps),
            abs(mean as int) <= 0x8000_0000_0000_0000,
            (match best {
                Some(b) => b == best_tri_upto(ps, mean as int, j as int) && b <= i64::MAX,
                None => best_tri_upto(ps, mean as int, j as int) > i64::MAX,
            }),
        decreases 21 - j,
    {
        let t: i128 = mean - 10 + j as i128;
        let c = tri_total_checked(&vs, t);
        best = match (best, c) {
            (Some(b), Some(cv)) => {
                if cv < b {
                    Some(cv)
                } else {
                    Some(b)
                }
            },
            (Some(b), None) => Some(b),
            (None, Some(cv)) => Some(cv),
            (None, None) => None,
        };
        j += 1;
    }
    proof {
        if best is Some {
            assert(part2_answer(input@) == best_tri_upto(ps, mean as int, 21));
        }
    }
    best
}

/// The non-linear fuel cost of moving from `pos` to `target`: one more
/// unit for each further step.
pub fn compute_fuel(pos: i64, target: i64) -> (r: i64)
    requires
        tri(abs(pos as int - target as int)) <= i64::MAX,
    ensures
        r == tri(abs(pos as int - target as int)),
{
    let d: i128 = if pos >= target {
        pos as i128 - target as i128
    } else {
        target as i128 - pos as i128
    };
    proof {
        let dd = d as int;
        assert(dd >= 0);
        if dd > 0x1_0000_0000 {
            assert(tri(dd) > i64::MAX) by (nonlinear_arith)
                requires
                    dd > 0x1_0000_0000,
            ;
        }
        assert(dd <= 0x1_0000_0000);
        assert(dd * (dd + 1) >= 0) by (nonlinear_arith)
            requires
                dd >= 0,
        ;
        assert(dd * (dd + 1) <= 0x1_0000_0000 * 0x1_0000_0001) by (nonlinear_arith)
            requires
                0 <= dd <= 0x1_0000_0000,
        ;
    }
    let f: i128 = d * (d + 1) / 2;
    f as i64
}

/// The minimal total linear displacement to a single target point.
pub fn solve_part1(input: &String, _input_mode: &InputMode) -> (r: i64)
    requires
        part1_ok(input@),
    ensures
        r == part1_answer(input@),
{
    match try_part1(input) {
        Some(v) => v,
        None => {
            proof {
                assert(false);
            }
            0
        },
    }
}

/// The minimal total triangular-number-weighted displacement cost.
pub fn solve_part2(input: &String, _input_mode: &InputMode) -> (r: i64)
    requires
        part2_ok(input@),
    ensures
        r == part2_answer(input@),
{
    match try_part2(input) {
        Some(v) => v,
        None => {
            proof {
                assert(false);
            }
            0
        },
    }
}


/// Law: the part-one answer is the least linear cost over every target
/// drawn from the positions themselves; a median is among them, so this
/// is the overall least linear cost.
pub proof fn lemma_best_lin_is_min(ps: Seq<int>, k: int, i: int)
    requires
        1 <= k <= ps.len(),
        0 <= i < k,
    ensures
        best_lin_upto(ps, k) <= lin_total(ps, ps[i]),
    decreases k,
{
    if i < k - 1 {
        lemma_best_lin_is_min(ps, k - 1, i);
    }
}

/// Law: the part-two answer is the least triangular cost over the
/// twenty-one candidate targets centred on the truncated mean.
pub proof fn lemma_best_tri_is_min(ps: Seq<int>, m: int, j: int, o: int)
    requires
        1 <= j <= 21,
        0 <= o < j,
    ensures
        best_tri_upto(ps, m, j) <= tri_total(ps, m - 10 + o),
    decreases j,
{
    if o < j - 1 {
        lemma_best_tri_is_min(ps, m, j - 1, o);
    }
}

/// How many positions lie at or below `t`.
pub open spec fn count_le(ps: Seq<int>, t: int) -> int
    decreases ps.len(),
{
    if ps.len() == 0 {
        0
    } else {
        count_le(ps.drop_last(), t) + if ps.last() <= t {
            1int
        } else {
            0int
        }
    }
}

proof fn lemma_count_le_bounds(ps: Seq<int>, t: int)
    ensures
        0 <= count_le(ps, t) <= ps.len(),
    decreases ps.len(),
{
    if ps.len() > 0 {
        lemma_count_le_bounds(ps.drop_last(), t);
    }
}

proof fn lemma_count_le_mono(ps: Seq<int>, t1: int, t2: int)
    requires
        t1 <= t2,
    ensures
        count_le(ps, t1) <= count_le(ps, t2),
    decreases ps.len(),
{
    if ps.len() > 0 {
        lemma_count_le_mono(ps.drop_last(), t1, t2);
    }
}

/// Moving the target up by one changes the total linear cost by the
/// number of positions at or below it minus the number above it.
proof fn lemma_delta(ps: Seq<int>, t: int)
    ensures
        lin_total(ps, t + 1) - lin_total(ps, t) == 2 * count_le(ps, t) - ps.len(),
    decreases ps.len(),
{
    if ps.len() == 0 {
        assert(lin_costs(ps, t) =~= Seq::<int>::empty());
        assert(lin_costs(ps, t + 1) =~= Seq::<int>::empty());
    } else {
        lemma_delta(ps.drop_last(), t);
        assert(lin_costs(ps, t).drop_last() =~= lin_costs(ps.drop_last(), t));
        assert(lin_costs(ps, t + 1).drop_last() =~= lin_costs(ps.drop_last(), t + 1));
        assert(lin_costs(ps, t).last() == abs(ps.last() - t));
        assert(lin_costs(ps, t + 1).last() == abs(ps.last() - (t + 1)));
    }
}

proof fn lemma_march_up(ps: Seq<int>, m: int, u: int)
    requires
        m <= u,
        2 * count_le(ps, m) >= ps.len(),
    ensures
        lin_total(ps, u) >= lin_total(ps, m),
    decreases u - m,
{
    if m < u {
        lemma_march_up(ps, m, u - 1);
        lemma_count_le_mono(ps, m, u - 1);
        lemma_delta(ps, u - 1);
    }
}

proof fn lemma_march_down(ps: Seq<int>, m: int, d: int)
    requires
        d <= m,
        2 * count_le(ps, m - 1) <= ps.len(),
    ensures
        lin_total(ps, d) >= lin_total(ps, m),
    decreases m - d,
{
    if d < m {
        lemma_march_down(ps, m, d + 1);
        lemma_count_le_mono(ps, d, m - 1);
        lemma_delta(ps, d);
    }
}

/// A strict rise of `count_le` at `t` means `t` is itself a position.
proof fn lemma_count_jump(ps: Seq<int>, t: int)
    requires
        count_le(ps, t) > count_le(ps, t - 1),
    ensures
        ps.contains(t),
    decreases ps.len(),
{
    if ps.len() > 0 {
        if ps.last() == t {
            assert(ps[ps.len() - 1] == t);
        } else {
            lemma_count_jump(ps.drop_last(), t);
            let i = choose|i: int| 0 <= i < ps.drop_last().len() && ps.drop_last()[i] == t;
            assert(ps[i] == t);
        }
    }
}

pub open spec fn min_elem(ps: Seq<int>) -> int
    recommends
        ps.len() >= 1,
    decreases ps.len(),
{
    if ps.len() <= 1 {
        ps[0]
    } else {
        let m = min_elem(ps.drop_last());
        if ps.last() <= m {
            ps.last()
        } else {
            m
        }
    }
}

proof fn lemma_min_elem(ps: Seq<int>)
    requires
        ps.len() >= 1,
    ensures
        ps.contains(min_elem(ps)),
        forall|i: int| 0 <= i < ps.len() ==> #[trigger] ps[i] >= min_elem(ps),
        count_le(ps, min_elem(ps) - 1) == 0,
    decreases ps.len(),
{
    if ps.len() == 1 {
        assert(ps[0] == min_elem(ps));
        assert(count_le(ps.drop_last(), min_elem(ps) - 1) == 0);
    } else {
        lemma_min_elem(ps.drop_last());
        if ps.last() <= min_elem(ps.drop_last()) {
            assert(ps[ps.len() - 1] == min_elem(ps));
        } else {
            let i = choose|i: int|
                0 <= i < ps.drop_last().len() && ps.drop_last()[i] == min_elem(ps.drop_last());
            assert(ps[i] == min_elem(ps));
        }
        assert forall|i: int| 0 <= i < ps.len() implies #[trigger] ps[i] >= min_elem(ps) by {
            if i < ps.len() - 1 {
                assert(ps[i] == ps.drop_last()[i]);
                assert(ps.drop_last()[i] >= min_elem(ps.drop_last()));
            }
        }
        lemma_count_zero_below(ps, min_elem(ps) - 1);
    }
}

proof fn lemma_count_zero_below(ps: Seq<int>, t: int)
    requires
        forall|i: int| 0 <= i < ps.len() ==> #[trigger] ps[i] > t,
    ensures
        count_le(ps, t) == 0,
    decreases ps.len(),
{
    if ps.len() > 0 {
        assert(ps[ps.len() - 1] > t);
        lemma_count_zero_below(ps.drop_last(), t);
    }
}

/// The least target at or after `t` where at least half the positions
/// lie at or below; searched with explicit fuel.
pub open spec fn least_balanced(ps: Seq<int>, t: int, fuel: nat) -> int
    decreases fuel,
{
    if fuel == 0 || 2 * count_le(ps, t) >= ps.len() {
        t
    } else {
        least_balanced(ps, t + 1, (fuel - 1) as nat)
    }
}

proof fn lemma_least_props(ps: Seq<int>, t: int, fuel: nat)
    requires
        2 * count_le(ps, t + fuel) >= ps.len(),
    ensures
        t <= least_balanced(ps, t, fuel) <= t + fuel,
        2 * count_le(ps, least_balanced(ps, t, fuel)) >= ps.len(),
        least_balanced(ps, t, fuel) > t ==> 2 * count_le(ps, least_balanced(ps, t, fuel) - 1)
            < ps.len(),
    decreases fuel,
{
    if !(fuel == 0 || 2 * count_le(ps, t) >= ps.len()) {
        lemma_least_props(ps, t + 1, (fuel - 1) as nat);
    }
}

/// Law: the part-one answer is the least total linear cost over every
/// integer target, not only over the positions themselves: the total
/// cost is convex in the target and attains its minimum at a median,
/// which is one of the positions.
pub proof fn lemma_part1_minimal(ps: Seq<int>, t: int)
    requires
        ps.len() >= 1,
    ensures
        best_lin_upto(ps, ps.len() as int) <= lin_total(ps, t),
{
    lemma_min_elem(ps);
    let lo = min_elem(ps);
    let i0 = choose|i: int| 0 <= i < ps.len() && ps[i] == lo;
    lemma_max_is_balanced(ps);
    let hi = max_elem(ps);
    assert(lo <= hi) by {
        assert(ps.contains(hi));
        let j = choose|j: int| 0 <= j < ps.len() && ps[j] == hi;
        assert(ps[j] >= lo);
    }
    let fuel = (hi - lo) as nat;
    lemma_count_le_mono(ps, hi, lo + fuel);
    lemma_least_props(ps, lo, fuel);
    let m = least_balanced(ps, lo, fuel);
    // the balance point is a position
    if m > lo {
        lemma_count_le_bounds(ps, m - 1);
        assert(count_le(ps, m) > count_le(ps, m - 1));
        lemma_count_jump(ps, m);
    } else {
        assert(ps.contains(m));
    }
    let im = choose|i: int| 0 <= i < ps.len() && ps[i] == m;
    lemma_best_lin_is_min(ps, ps.len() as int, im);
    // every target costs at least as much as the balance point
    if t >= m {
        lemma_march_up(ps, m, t);
    } else {
        if m > lo {
            lemma_march_down(ps, m, t);
        } else {
            assert(count_le(ps, m - 1) == 0);
            lemma_march_down(ps, m, t);
        }
    }
}

pub open spec fn max_elem(ps: Seq<int>) -> int
    recommends
        ps.len() >= 1,
    decreases ps.len(),
{
    if ps.len() <= 1 {
        ps[0]
    } else {
        let m = max_elem(ps.drop_last());
        if ps.last() >= m {
            ps.last()
        } else {
            m
        }
    }
}

proof fn lemma_max_is_balanced(ps: Seq<int>)
    requires
        ps.len() >= 1,
    ensures
        ps.contains(max_elem(ps)),
        count_le(ps, max_elem(ps)) == ps.len(),
    decreases ps.len(),
{
    if ps.len() == 1 {
        assert(ps[0] == max_elem(ps));
        assert(count_le(ps.drop_last(), max_elem(ps)) == 0);
    } else {
        lemma_max_is_balanced(ps.drop_last());
        if ps.last() >= max_elem(ps.drop_last()) {
            assert(ps[ps.len() - 1] == max_elem(ps));
        } else {
            let i = choose|i: int|
                0 <= i < ps.drop_last().len() && ps.drop_last()[i] == max_elem(ps.drop_last());
            assert(ps[i] == max_elem(ps));
        }
        assert(max_elem(ps.drop_last()) <= max_elem(ps));
        lemma_count_le_mono(ps.drop_last(), max_elem(ps.drop_last()), max_elem(ps));
        lemma_count_le_bounds(ps.drop_last(), max_elem(ps));
        assert(count_le(ps.drop_last(), max_elem(ps)) == ps.len() - 1);
        assert(ps.last() <= max_elem(ps));
    }
}
} // verus!
