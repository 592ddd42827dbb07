//! Grid-marking winner detection.
//!
//! The input holds a comma-separated draw sequence and a set of
//! five-by-five number grids.  Each drawn number marks its first
//! unmarked matching cell on every grid; a grid wins once a full row or
//! column is marked.  Part one scores the first grid to win, part two
//! the last; a grid's score is the sum of its unmarked cells times the
//! number drawn when it won.  The search must resolve to exactly one
//! first (or last) winner.
//!
//! Each grid is held in a six-by-six `ndarray` array: the extra row and
//! column count the marks per row and column, and the corner cell
//! tracks the sum of unmarked cells.

use vstd::prelude::*;
use crate::InputMode;
use crate::grid::{grid_get, grid_of, grid_set, grid_zeros, rect, Grid};
use crate::text::{
    all_parse_i64, chars_of, int_chars_val, lines_of, nonempty_tokens, parse_i64_all, parses_to_i64, spec_lines, spec_split, spec_trim, split_char, subvec, tokens_of, vals_of, views_of,
};

verus! {

/// The drawn numbers: the first record, split on commas.
pub open spec fn draws_of(s: Seq<char>) -> Seq<int> {
    vals_of(spec_split(spec_lines(s)[0], ','))
}

/// The non-blank records after the first: five per grid.
pub open spec fn row_lines(s: Seq<char>) -> Seq<Seq<char>> {
    nonempty_tokens(spec_lines(s).skip(1))
}

/// The numbers of one grid row: the record's space-separated tokens.
pub open spec fn row_vals(l: Seq<char>) -> Seq<int> {
    vals_of(nonempty_tokens(spec_split(spec_trim(l), ' ')))
}

pub open spec fn row_ok(l: Seq<char>) -> bool {
    let ts = nonempty_tokens(spec_split(spec_trim(l), ' '));
    ts.len() == 5 && all_parse_i64(ts) && (forall|j: int| 0 <= j < 5 ==> #[trigger] row_vals(l)[j] >= 0)
}

/// The flattened cells of grid `b`, row-major.
pub open spec fn board_vals(s: Seq<char>, b: int) -> Seq<int> {
    Seq::new(25, |k: int| row_vals(row_lines(s)[5 * b + k / 5])[k % 5])
}

pub open spec fn num_boards(s: Seq<char>) -> int {
    row_lines(s).len() as int / 5
}

/// Whether the input parses: a draw list of non-negative numbers and a
/// positive number of complete five-row grids of non-negative numbers.
pub open spec fn parse_ok(s: Seq<char>) -> bool {
    &&& spec_lines(s).len() >= 1
    &&& all_parse_i64(spec_split(spec_lines(s)[0], ','))
    &&& (forall|i: int| 0 <= i < draws_of(s).len() ==> #[trigger] draws_of(s)[i] >= 0)
    &&& (forall|i: int| 0 <= i < row_lines(s).len() ==> row_ok(#[trigger] row_lines(s)[i]))
    &&& row_lines(s).len() % 5 == 0
    &&& row_lines(s).len() >= 5
}

/// The first unmarked cell holding `x`, scanning row-major from `k`;
/// 25 when there is none.
pub open spec fn find_unmarked(vals: Seq<int>, marks: Seq<bool>, x: int, k: int) -> int
    decreases 25 - k,
{
    if k < 0 || k >= 25 {
        25
    } else if !marks[k] && vals[k] == x {
        k
    } else {
        find_unmarked(vals, marks, x, k + 1)
    }
}

/// Marks the first unmarked cell holding `x`, if any.
pub open spec fn mark_one(vals: Seq<int>, marks: Seq<bool>, x: int) -> Seq<bool> {
    let k = find_unmarked(vals, marks, x, 0);
    if k < 25 {
        marks.update(k, true)
    } else {
        marks
    }
}

/// The marks of one grid after the first `t` draws.
pub open spec fn marks_after(vals: Seq<int>, draws: Seq<int>, t: int) -> Seq<bool>
    decreases t,
{
    if t <= 0 {
        Seq::new(25, |i: int| false)
    } else {
        mark_one(vals, marks_after(vals, draws, t - 1), draws[t - 1])
    }
}

/// How many cells of row `i` are marked.
pub open spec fn row_count(marks: Seq<bool>, i: int) -> int {
    (if marks[5 * i] { 1int } else { 0int }) + (if marks[5 * i + 1] { 1int } else { 0int })
        + (if marks[5 * i + 2] { 1int } else { 0int })
        + (if marks[5 * i + 3] { 1int } else { 0int })
        + (if marks[5 * i + 4] { 1int } else { 0int })
}

/// How many cells of column `j` are marked.
pub open spec fn col_count(marks: Seq<bool>, j: int) -> int {
    (if marks[j] { 1int } else { 0int }) + (if marks[5 + j] { 1int } else { 0int })
        + (if marks[10 + j] { 1int } else { 0int })
        + (if marks[15 + j] { 1int } else { 0int })
        + (if marks[20 + j] { 1int } else { 0int })
}

/// Whether a full row or column is marked.
pub open spec fn board_won(marks: Seq<bool>) -> bool {
    exists|i: int| 0 <= i < 5 && (row_count(marks, i) == 5 || col_count(marks, i) == 5)
}

/// The sum of unmarked cells from position `k` on.
pub open spec fn unmarked_sum(vals: Seq<int>, marks: Seq<bool>, k: int) -> int
    decreases 25 - k,
{
    if k < 0 || k >= 25 {
        0
    } else {
        (if !marks[k] {
            vals[k]
        } else {
            0int
        }) + unmarked_sum(vals, marks, k + 1)
    }
}

/// The first round in `k ..= draws.len()` after which the grid has won;
/// `draws.len() + 1` when it never does.
pub open spec fn win_round_from(vals: Seq<int>, draws: Seq<int>, k: int) -> int
    decreases draws.len() + 1 - k,
{
    if k < 1 || k > draws.len() {
        draws.len() as int + 1
    } else if board_won(marks_after(vals, draws, k)) {
        k
    } else {
        win_round_from(vals, draws, k + 1)
    }
}

pub open spec fn win_round(vals: Seq<int>, draws: Seq<int>) -> int {
    win_round_from(vals, draws, 1)
}

pub proof fn lemma_wrf_ge(vals: Seq<int>, draws: Seq<int>, k: int)
    requires
        1 <= k <= draws.len() + 1,
    ensures
        win_round_from(vals, draws, k) >= k,
        win_round_from(vals, draws, k) <= draws.len() + 1,
    decreases draws.len() + 1 - k,
{
    if 1 <= k <= draws.len() && !board_won(marks_after(vals, draws, k)) {
        lemma_wrf_ge(vals, draws, k + 1);
    }
}

/// A grid's score at round `t`: the number drawn that round times the
/// sum of the grid's unmarked cells.
pub open spec fn score(vals: Seq<int>, draws: Seq<int>, t: int) -> int {
    draws[t - 1] * unmarked_sum(vals, marks_after(vals, draws, t), 0)
}

/// The least win round over the grids from index `b` on.
pub open spec fn min_round_from(s: Seq<char>, b: int) -> int
    decreases num_boards(s) - b,
{
    if b < 0 || b >= num_boards(s) {
        draws_of(s).len() as int + 1
    } else {
        let r = win_round(board_vals(s, b), draws_of(s));
        let rest = min_round_from(s, b + 1);
        if r <= rest {
            r
        } else {
            rest
        }
    }
}

/// The greatest win round over the grids from index `b` on.
pub open spec fn max_round_from(s: Seq<char>, b: int) -> int
    decreases num_boards(s) - b,
{
    if b < 0 || b >= num_boards(s) {
        0
    } else {
        let r = win_round(board_vals(s, b), draws_of(s));
        let rest = max_round_from(s, b + 1);
        if r >= rest {
            r
        } else {
            rest
        }
    }
}

/// How many grids from index `b` on win exactly at round `t`.
pub open spec fn count_at_round(s: Seq<char>, t: int, b: int) -> int
    decreases num_boards(s) - b,
{
    if b < 0 || b >= num_boards(s) {
        0
    } else {
        (if win_round(board_vals(s, b), draws_of(s)) == t {
            1int
        } else {
            0int
        }) + count_at_round(s, t, b + 1)
    }
}

/// The first grid from index `b` on that wins exactly at round `t`.
pub open spec fn first_at_round(s: Seq<char>, t: int, b: int) -> int
    decreases num_boards(s) - b,
{
    if b < 0 || b >= num_boards(s) {
        num_boards(s)
    } else if win_round(board_vals(s, b), draws_of(s)) == t {
        b
    } else {
        first_at_round(s, t, b + 1)
    }
}

pub open spec fn part1_ok(s: Seq<char>) -> bool {
    &&& parse_ok(s)
    &&& min_round_from(s, 0) <= draws_of(s).len()
    &&& count_at_round(s, min_round_from(s, 0), 0) == 1
    &&& (forall|b: int|
        0 <= b < num_boards(s) ==> unmarked_sum(#[trigger] board_vals(s, b), marks_after(board_vals(s, b), draws_of(s), 0), 0) <= i64::MAX)
    &&& (forall|i: int| 0 <= i < draws_of(s).len() ==> #[trigger] draws_of(s)[i] <= i64::MAX)
    &&& i64::MIN <= part1_answer(s) <= i64::MAX
}

pub open spec fn part1_answer(s: Seq<char>) -> int {
    let t = min_round_from(s, 0);
    score(board_vals(s, first_at_round(s, t, 0)), draws_of(s), t)
}

pub open spec fn part2_ok(s: Seq<char>) -> bool {
    &&& parse_ok(s)
    &&& max_round_from(s, 0) <= draws_of(s).len()
    &&& count_at_round(s, max_round_from(s, 0), 0) == 1
    &&& (forall|b: int|
        0 <= b < num_boards(s) ==> unmarked_sum(#[trigger] board_vals(s, b), marks_after(board_vals(s, b), draws_of(s), 0), 0) <= i64::MAX)
    &&& (forall|i: int| 0 <= i < draws_of(s).len() ==> #[trigger] draws_of(s)[i] <= i64::MAX)
    &&& i64::MIN <= part2_answer(s) <= i64::MAX
}

pub open spec fn part2_answer(s: Seq<char>) -> int {
    let t = max_round_from(s, 0);
    score(board_vals(s, first_at_round(s, t, 0)), draws_of(s), t)
}


/// Links one grid's array to its model: value cells in the five-by-five
/// corner, mark counters in the extra row and column, and the unmarked
/// sum in the corner cell.
pub open spec fn bs_inv(g: Grid, marks: Seq<bool>, vals: Seq<int>) -> bool {
    &&& vals.len() == 25
    &&& marks.len() == 25
    &&& (forall|k: int| 0 <= k < 25 ==> #[trigger] vals[k] >= 0)
    &&& (forall|k: int| 0 <= k < 25 ==> #[trigger] vals[k] <= i64::MAX)
    &&& grid_of(g).len() == 6
    &&& rect(grid_of(g), 6)
    &&& (forall|i: int, j: int|
        0 <= i < 5 && 0 <= j < 5 ==> #[trigger] grid_of(g)[i][j] == vals[5 * i + j])
    &&& (forall|i: int| 0 <= i < 5 ==> #[trigger] grid_of(g)[i][5] == row_count(marks, i))
    &&& (forall|j: int| 0 <= j < 5 ==> #[trigger] grid_of(g)[5][j] == col_count(marks, j))
    &&& grid_of(g)[5][5] == unmarked_sum(vals, marks, 0)
    &&& unmarked_sum(vals, marks, 0) <= i64::MAX
}

pub proof fn lemma_unmarked_nonneg(vals: Seq<int>, marks: Seq<bool>, from: int)
    requires
        vals.len() == 25,
        forall|k: int| 0 <= k < 25 ==> #[trigger] vals[k] >= 0,
    ensures
        unmarked_sum(vals, marks, from) >= 0,
    decreases 25 - from,
{
    if 0 <= from < 25 {
        lemma_unmarked_nonneg(vals, marks, from + 1);
    }
}

/// Marking one cell removes exactly its value from the unmarked sum.
pub proof fn lemma_unmarked_update(vals: Seq<int>, marks: Seq<bool>, k: int, from: int)
    requires
        vals.len() == 25,
        marks.len() == 25,
        0 <= k < 25,
        !marks[k],
        0 <= from <= 25,
    ensures
        unmarked_sum(vals, marks.update(k, true), from) == unmarked_sum(vals, marks, from) - (
        if from <= k {
            vals[k]
        } else {
            0int
        }),
    decreases 25 - from,
{
    if from < 25 {
        lemma_unmarked_update(vals, marks, k, from + 1);
    }
}

/// Builds one grid's array and the all-unmarked state, or reports a
/// cell sum beyond the result type.
fn init_board(vals: &Vec<i64>) -> (r: Option<(Grid, Vec<bool>)>)
    requires
        vals@.len() == 25,
        forall|k: int| 0 <= k < 25 ==> #[trigger] vals@[k] >= 0,
    ensures
        (r is Some) == (unmarked_sum(
            crate::text::ints_of(vals@),
            Seq::new(25, |i: int| false),
            0,
        ) <= i64::MAX),
        (match r {
            Some(p) => p.1@ == Seq::new(25nat, |i: int| false) && bs_inv(
                p.0,
                p.1@,
                crate::text::ints_of(vals@),
            ),
            None => true,
        }),
{
    let ghost iv = crate::text::ints_of(vals@);
    let ghost m0 = Seq::new(25nat, |i: int| false);
    let mut total: i128 = 0;
    let mut k: usize = 25;
    while k > 0
        invariant
            k <= 25,
            vals@.len() == 25,
            iv == crate::text::ints_of(vals@),
            m0 == Seq::new(25nat, |i: int| false),
            forall|j: int| 0 <= j < 25 ==> #[trigger] vals@[j] >= 0,
            total == unmarked_sum(iv, m0, k as int),
            0 <= total <= (25 - k) * 0x8000_0000_0000_0000,
        decreases k,
    {
        k -= 1;
        total = total + vals[k] as i128;
    }
    if total > i64::MAX as i128 {
        return None;
    }
    let mut g = grid_zeros(6, 6);
    let mut marks: Vec<bool> = Vec::new();
    let mut i: usize = 0;
    while i < 25
        invariant
            i <= 25,
            marks@.len() == i,
            forall|j: int| 0 <= j < i ==> !(#[trigger] marks@[j]),
        decreases 25 - i,
    {
        marks.push(false);
        i += 1;
    }
    proof {
        assert(marks@ =~= m0);
    }
    let mut r: usize = 0;
    while r < 5
        invariant
            r <= 5,
            vals@.len() == 25,
            iv == crate::text::ints_of(vals@),
            grid_of(g).len() == 6,
            rect(grid_of(g), 6),
            forall|i2: int, j2: int|
                0 <= i2 < r && 0 <= j2 < 5 ==> #[trigger] grid_of(g)[i2][j2] == iv[5 * i2 + j2],
            forall|i2: int| 0 <= i2 < 6 ==> #[trigger] grid_of(g)[i2][5] == 0,
            forall|j2: int| 0 <= j2 < 6 ==> #[trigger] grid_of(g)[5][j2] == 0,
            forall|i2: int, j2: int|
                r <= i2 < 5 && 0 <= j2 < 5 ==> #[trigger] grid_of(g)[i2][j2] == 0,
        decreases 5 - r,
    {
        let mut c: usize = 0;
        while c < 5
            invariant
                c <= 5,
                r < 5,
                vals@.len() == 25,
                iv == crate::text::ints_of(vals@),
                grid_of(g).len() == 6,
                rect(grid_of(g), 6),
                forall|i2: int, j2: int|
                    0 <= i2 < r && 0 <= j2 < 5 ==> #[trigger] grid_of(g)[i2][j2] == iv[5 * i2
                        + j2],
                forall|j2: int| 0 <= j2 < c ==> #[trigger] grid_of(g)[r as int][j2] == iv[5 * r + j2],
                forall|i2: int| 0 <= i2 < 6 ==> #[trigger] grid_of(g)[i2][5] == 0,
                forall|j2: int| 0 <= j2 < 6 ==> #[trigger] grid_of(g)[5][j2] == 0,
                forall|j2: int| c <= j2 < 5 ==> #[trigger] grid_of(g)[r as int][j2] == 0,
                forall|i2: int, j2: int|
                    r < i2 < 5 && 0 <= j2 < 5 ==> #[trigger] grid_of(g)[i2][j2] == 0,
            decreases 5 - c,
        {
            grid_set(&mut g, r, c, vals[5 * r + c]);
            c += 1;
        }
        r += 1;
    }
    let t64 = total as i64;
    grid_set(&mut g, 5, 5, t64);
    proof {
        assert(unmarked_sum(iv, m0, 0) == total);
        assert(forall|i2: int| 0 <= i2 < 5 ==> row_count(m0, i2) == 0);
        assert(forall|j2: int| 0 <= j2 < 5 ==> col_count(m0, j2) == 0);
        assert(bs_inv(g, m0, iv));
    }
    Some((g, marks))
}


/// Marking cell `k` raises its row and column counters by one and
/// leaves every other counter unchanged.
proof fn lemma_mark_counts(m0: Seq<bool>, k: int)
    requires
        m0.len() == 25,
        0 <= k < 25,
        !m0[k],
    ensures
        row_count(m0.update(k, true), k / 5) == row_count(m0, k / 5) + 1,
        col_count(m0.update(k, true), k % 5) == col_count(m0, k % 5) + 1,
        forall|i: int| 0 <= i < 5 && i != k / 5 ==> row_count(m0.update(k, true), i) == row_count(m0, i),
        forall|j: int| 0 <= j < 5 && j != k % 5 ==> col_count(m0.update(k, true), j) == col_count(m0, j),
        forall|i: int| 0 <= i < 5 ==> row_count(m0, i) <= 5 && row_count(m0, i) >= 0,
        forall|j: int| 0 <= j < 5 ==> col_count(m0, j) <= 5 && col_count(m0, j) >= 0,
{
}

/// Marks the first unmarked cell holding `x`, updating the counters and
/// the unmarked sum as the model does.
#[verifier::rlimit(100)]
fn mark_board(g: &mut Grid, marks: &mut Vec<bool>, x: i64, Ghost(vals): Ghost<Seq<int>>)
    requires
        bs_inv(*old(g), old(marks)@, vals),
        x >= 0,
    ensures
        final(marks)@ == mark_one(vals, old(marks)@, x as int),
        bs_inv(*final(g), final(marks)@, vals),
{
    let ghost m0 = marks@;
    let mut k: usize = 0;
    while k < 25
        invariant
            k <= 25,
            marks@ == m0,
            m0 == old(marks)@,
            bs_inv(*g, m0, vals),
            find_unmarked(vals, m0, x as int, 0) == find_unmarked(vals, m0, x as int, k as int),
            x >= 0,
        decreases 25 - k,
    {
        let i = k / 5;
        let j = k % 5;
        proof {
            assert(k as int == 5 * (i as int) + (j as int));
            assert(i < 5 && j < 5);
        }
        let marked = marks[k];
        let cell = grid_get(g, i, j);
        if !marked && cell == x {
            proof {
                assert(find_unmarked(vals, m0, x as int, k as int) == k);
            }
            marks.set(k, true);
            let ghost m1 = m0.update(k as int, true);
            proof {
                lemma_unmarked_update(vals, m0, k as int, 0);
                lemma_unmarked_nonneg(vals, m1, 0);
            }
            let rc = grid_get(g, i, 5);
            grid_set(g, i, 5, rc + 1);
            let cc = grid_get(g, 5, j);
            grid_set(g, 5, j, cc + 1);
            let s55 = grid_get(g, 5, 5);
            grid_set(g, 5, 5, s55 - x);
            proof {
                assert(m1 == mark_one(vals, m0, x as int));
                lemma_mark_counts(m0, k as int);
                assert(bs_inv(*g, m1, vals));
            }
            return ;
        }
        k += 1;
    }
    proof {
        assert(find_unmarked(vals, m0, x as int, 0) == 25);
        assert(marks@ == mark_one(vals, m0, x as int));
    }
}

/// Whether a full row or column counter has reached five.
fn board_has_bingo(g: &Grid, Ghost(marks): Ghost<Seq<bool>>, Ghost(vals): Ghost<Seq<int>>) -> (b:
    bool)
    requires
        bs_inv(*g, marks, vals),
    ensures
        b == board_won(marks),
{
    let mut i: usize = 0;
    while i < 5
        invariant
            i <= 5,
            bs_inv(*g, marks, vals),
            forall|i2: int|
                0 <= i2 < i ==> row_count(marks, i2) != 5 && col_count(marks, i2) != 5,
        decreases 5 - i,
    {
        let rc = grid_get(g, i, 5);
        let cc = grid_get(g, 5, i);
        if rc == 5 || cc == 5 {
            proof {
                assert(board_won(marks));
            }
            return true;
        }
        i += 1;
    }
    proof {
        assert(!board_won(marks));
    }
    false
}


pub proof fn lemma_min_le(s: Seq<char>, b: int, b0: int)
    requires
        0 <= b <= b0 < num_boards(s),
    ensures
        min_round_from(s, b) <= win_round(board_vals(s, b0), draws_of(s)),
    decreases b0 - b,
{
    if b < b0 {
        lemma_min_le(s, b + 1, b0);
    }
}

pub proof fn lemma_min_ge(s: Seq<char>, b: int, r: int)
    requires
        0 <= b,
        r <= draws_of(s).len() + 1,
        forall|b2: int|
            b <= b2 < num_boards(s) ==> win_round(#[trigger] board_vals(s, b2), draws_of(s)) >= r,
    ensures
        min_round_from(s, b) >= r,
    decreases num_boards(s) - b,
{
    if b < num_boards(s) {
        lemma_min_ge(s, b + 1, r);
    }
}

pub proof fn lemma_max_ge(s: Seq<char>, b: int, b0: int)
    requires
        0 <= b <= b0 < num_boards(s),
    ensures
        max_round_from(s, b) >= win_round(board_vals(s, b0), draws_of(s)),
    decreases b0 - b,
{
    if b < b0 {
        lemma_max_ge(s, b + 1, b0);
    }
}

pub proof fn lemma_max_le(s: Seq<char>, b: int, r: int)
    requires
        0 <= b,
        r >= 0,
        forall|b2: int|
            b <= b2 < num_boards(s) ==> win_round(#[trigger] board_vals(s, b2), draws_of(s)) <= r,
    ensures
        max_round_from(s, b) <= r,
    decreases num_boards(s) - b,
{
    if b < num_boards(s) {
        lemma_max_le(s, b + 1, r);
    }
}

pub proof fn lemma_first_unique(s: Seq<char>, t: int, f: int, b: int)
    requires
        0 <= b <= f < num_boards(s),
        win_round(board_vals(s, f), draws_of(s)) == t,
        forall|b2: int|
            b <= b2 < f ==> win_round(#[trigger] board_vals(s, b2), draws_of(s)) != t,
    ensures
        first_at_round(s, t, b) == f,
    decreases f - b,
{
    if b < f {
        lemma_first_unique(s, t, f, b + 1);
    }
}

/// A filtered prefix is a prefix of the filtered whole.
pub proof fn lemma_ne_prefix(ts: Seq<Seq<char>>, k: int)
    requires
        0 <= k <= ts.len(),
    ensures
        nonempty_tokens(ts.subrange(0, k)).len() <= nonempty_tokens(ts).len(),
        nonempty_tokens(ts.subrange(0, k)) == nonempty_tokens(ts).subrange(
            0,
            nonempty_tokens(ts.subrange(0, k)).len() as int,
        ),
    decreases ts.len() - k,
{
    if k == ts.len() {
        assert(ts.subrange(0, k) =~= ts);
        assert(nonempty_tokens(ts).subrange(0, nonempty_tokens(ts).len() as int)
            =~= nonempty_tokens(ts));
    } else {
        lemma_ne_prefix(ts, k + 1);
        let p = ts.subrange(0, k);
        let q = ts.subrange(0, k + 1);
        assert(q.drop_last() =~= p);
        assert(q.last() == ts[k]);
        let np = nonempty_tokens(p);
        let nq = nonempty_tokens(q);
        if ts[k].len() > 0 {
            assert(nq == np.push(ts[k]));
            assert(np =~= nq.subrange(0, np.len() as int));
            assert(nq.subrange(0, np.len() as int) =~= nonempty_tokens(ts).subrange(
                0,
                np.len() as int,
            ));
        } else {
            assert(nq == np);
        }
    }
}

/// Parses the draw list and the grids, or reports what is malformed.
fn parse_input(input: &String) -> (r: Option<(Vec<i64>, Vec<Vec<i64>>)>)
    ensures
        (r is Some) == parse_ok(input@),
        (match r {
            Some(p) => {
                &&& crate::text::ints_of(p.0@) == draws_of(input@)
                &&& p.1@.len() == num_boards(input@)
                &&& (forall|b: int|
                    0 <= b < p.1@.len() ==> (#[trigger] p.1@[b])@.len() == 25)
                &&& (forall|b: int|
                    0 <= b < p.1@.len() ==> crate::text::ints_of((#[trigger] p.1@[b])@)
                        == board_vals(input@, b))
                &&& (forall|b: int, k: int|
                    0 <= b < p.1@.len() && 0 <= k < 25 ==> #[trigger] (p.1@[b])@[k] >= 0)
            },
            None => true,
        }),
{
    let cs = chars_of(input.as_str());
    let ls = lines_of(&cs);
    let ghost lviews = spec_lines(input@);
    proof {
        assert(views_of(ls@) =~= lviews);
    }
    if ls.len() == 0 {
        return None;
    }
    let dtoks = split_char(&ls[0], ',');
    proof {
        assert(views_of(dtoks@) =~= spec_split(lviews[0], ','));
    }
    let ds = match parse_i64_all(&dtoks) {
        None => {
            return None;
        },
        Some(ds) => ds,
    };
    proof {
        assert(crate::text::ints_of(ds@) =~= draws_of(input@));
    }
    let nd = ds.len();
    let mut di: usize = 0;
    while di < nd
        invariant
            di <= nd,
            nd == ds@.len(),
            crate::text::ints_of(ds@) == draws_of(input@),
            forall|j: int| 0 <= j < di ==> #[trigger] ds@[j] >= 0,
        decreases nd - di,
    {
        if ds[di] < 0 {
            proof {
                assert(draws_of(input@)[di as int] < 0);
            }
            return None;
        }
        di += 1;
    }
    let ghost tail = lviews.skip(1);
    let ghost rl = row_lines(input@);
    proof {
        assert(nonempty_tokens(tail) == rl);
        assert(tail.subrange(0, 0) =~= Seq::<Seq<char>>::empty());
    }
    let mut rows: Vec<Vec<i64>> = Vec::new();
    let nl = ls.len();
    let mut i: usize = 1;
    while i < nl
        invariant
            1 <= i <= nl,
            nl == ls@.len(),
            lviews == spec_lines(input@),
            views_of(ls@) == lviews,
            tail == lviews.skip(1),
            rl == row_lines(input@),
            tail.len() == nl - 1,
            forall|j: int| 0 <= j < tail.len() ==> tail[j] == lviews[j + 1],
            rows@.len() == nonempty_tokens(tail.subrange(0, i - 1)).len(),
            rows@.len() <= rl.len(),
            forall|r2: int|
                0 <= r2 < rows@.len() ==> row_ok(#[trigger] rl[r2]) && crate::text::ints_of(
                    rows@[r2]@,
                ) == row_vals(rl[r2]) && rows@[r2]@.len() == 5,
        decreases nl - i,
    {
        let ghost k = i - 1;
        proof {
            lemma_ne_prefix(tail, k + 1);
            lemma_ne_prefix(tail, k as int);
            assert(tail.subrange(0, k + 1).drop_last() =~= tail.subrange(0, k as int));
            assert(tail.subrange(0, k + 1).last() == tail[k as int]);
        }
        if ls[i].len() > 0 {
            let ghost c = rows@.len() as int;
            proof {
                assert(lviews[i as int] == ls@[i as int]@);
                assert(tail[k as int] == lviews[i as int]);
                assert(tail[k as int].len() > 0);
                assert(nonempty_tokens(tail.subrange(0, k + 1)) == nonempty_tokens(
                    tail.subrange(0, k as int),
                ).push(tail[k as int]));
                assert(nonempty_tokens(tail.subrange(0, k + 1)) == rl.subrange(0, c + 1));
                assert(rl[c] == rl.subrange(0, c + 1).last());
                assert(rl[c] == tail[k as int]);
            }
            let toks = tokens_of(&ls[i]);
            proof {
                assert(views_of(toks@) == nonempty_tokens(
                    spec_split(spec_trim(rl[c]), ' '),
                ));
            }
            if toks.len() != 5 {
                proof {
                    assert(!row_ok(rl[c]));
                }
                return None;
            }
            let vs = match parse_i64_all(&toks) {
                None => {
                    proof {
                        assert(!row_ok(rl[c]));
                    }
                    return None;
                },
                Some(vs) => vs,
            };
            proof {
                assert(crate::text::ints_of(vs@) =~= row_vals(rl[c]));
            }
            if vs[0] < 0 || vs[1] < 0 || vs[2] < 0 || vs[3] < 0 || vs[4] < 0 {
                proof {
                    assert(!row_ok(rl[c]));
                }
                return None;
            }
            proof {
                assert(row_ok(rl[c]));
            }
            rows.push(vs);
        }
        i += 1;
    }
    proof {
        assert(tail.subrange(0, nl - 1) =~= tail);
        assert(rows@.len() == rl.len());
    }
    let nr = rows.len();
    if nr % 5 != 0 || nr < 5 {
        return None;
    }
    let nb = nr / 5;
    let mut boards: Vec<Vec<i64>> = Vec::new();
    let mut b: usize = 0;
    while b < nb
        invariant
            b <= nb,
            nb == nr / 5,
            nr % 5 == 0,
            nr == rows@.len(),
            nr == rl.len(),
            rl == row_lines(input@),
            num_boards(input@) == nb,
            forall|r2: int|
                0 <= r2 < nr ==> row_ok(#[trigger] rl[r2]) && crate::text::ints_of(rows@[r2]@)
                    == row_vals(rl[r2]) && rows@[r2]@.len() == 5,
            boards@.len() == b,
            forall|b2: int|
                0 <= b2 < b ==> (#[trigger] boards@[b2])@.len() == 25,
            forall|b2: int|
                0 <= b2 < b ==> crate::text::ints_of((#[trigger] boards@[b2])@) == board_vals(
                    input@,
                    b2,
                ),
            forall|b2: int, k2: int|
                0 <= b2 < b && 0 <= k2 < 25 ==> #[trigger] (boards@[b2])@[k2] >= 0,
        decreases nb - b,
    {
        let mut cells: Vec<i64> = Vec::new();
        let mut m: usize = 0;
        while m < 25
            invariant
                m <= 25,
                b < nb,
                nb == nr / 5,
                nr % 5 == 0,
                nr == rows@.len(),
                nr == rl.len(),
                rl == row_lines(input@),
                forall|r2: int|
                    0 <= r2 < nr ==> row_ok(#[trigger] rl[r2]) && crate::text::ints_of(
                        rows@[r2]@,
                    ) == row_vals(rl[r2]) && rows@[r2]@.len() == 5,
                cells@.len() == m,
                forall|m2: int|
                    0 <= m2 < m ==> #[trigger] cells@[m2] as int == row_vals(
                        rl[5 * (b as int) + m2 / 5],
                    )[m2 % 5] && cells@[m2] >= 0,
            decreases 25 - m,
        {
            let rr = m / 5;
            let j = m % 5;
            proof {
                assert(m as int == 5 * (rr as int) + (j as int));
                assert(rr < 5 && j < 5);
                assert(5 * (nb as int) == nr as int);
                assert(5 * (b as int) + rr < nr);
                assert(row_ok(rl[5 * (b as int) + (rr as int)]));
                assert(rows@[5 * (b as int) + (rr as int)]@.len() == 5);
                assert((5 * (b as int) + (rr as int)) == 5 * (b as int) + (m as int) / 5);
            }
            let v = rows[5 * b + rr][j];
            proof {
                assert(v as int == row_vals(rl[5 * (b as int) + (m as int) / 5])[(m as int)
                    % 5]);
            }
            cells.push(v);
            m += 1;
        }
        proof {
            assert(crate::text::ints_of(cells@) =~= board_vals(input@, b as int));
        }
        boards.push(cells);
        b += 1;
    }
    Some((ds, boards))
}

/// Plays the draw sequence and scores the first grid to win, or reports
/// a malformed input, an unresolved search, or a score beyond the
/// result type.
#[verifier::rlimit(100)]
pub fn try_part1(input: &String) -> (r: Option<i64>)
    ensures
        (r is Some) == part1_ok(input@),
        (match r {
            Some(v) => v == part1_answer(input@),
            None => true,
        }),
{
    let (ds, bvecs) = match parse_input(input) {
        None => {
            return None;
        },
        Some(p) => p,
    };
    let ghost draws = draws_of(input@);
    let nb = bvecs.len();
    let nd = ds.len();
    let mut grids: Vec<Grid> = Vec::new();
    let mut mvs: Vec<Vec<bool>> = Vec::new();
    let mut b0: usize = 0;
    while b0 < nb
        invariant
            b0 <= nb,
            nb == bvecs@.len(),
            nb == num_boards(input@),
            draws == draws_of(input@),
            forall|b: int|
                0 <= b < nb ==> crate::text::ints_of((#[trigger] bvecs@[b])@) == board_vals(
                    input@,
                    b,
                ) && bvecs@[b]@.len() == 25,
            forall|b: int, k: int|
                0 <= b < nb && 0 <= k < 25 ==> #[trigger] (bvecs@[b])@[k] >= 0,
            grids@.len() == b0,
            mvs@.len() == b0,
            forall|b: int|
                0 <= b < b0 ==> bs_inv(#[trigger] grids@[b], mvs@[b]@, board_vals(input@, b))
                    && mvs@[b]@ == marks_after(board_vals(input@, b), draws, 0),
        decreases nb - b0,
    {
        let ghost bv = board_vals(input@, b0 as int);
        let p = match init_board(&bvecs[b0]) {
            None => {
                proof {
                    assert(unmarked_sum(bv, marks_after(bv, draws, 0), 0) > i64::MAX);
                }
                return None;
            },
            Some(p) => p,
        };
        grids.push(p.0);
        mvs.push(p.1);
        b0 += 1;
    }
    proof {
        assert forall|b: int| 0 <= b < nb implies unmarked_sum(
            #[trigger] board_vals(input@, b),
            marks_after(board_vals(input@, b), draws, 0),
            0,
        ) <= i64::MAX by {
            assert(bs_inv(grids@[b], mvs@[b]@, board_vals(input@, b)));
        }
    }
    let mut t: usize = 0;
    while t < nd
        invariant
            t <= nd,
            nb == bvecs@.len(),
            nb >= 1,
            nb == num_boards(input@),
            nd == ds@.len(),
            draws == draws_of(input@),
            crate::text::ints_of(ds@) == draws,
            draws.len() == nd,
            parse_ok(input@),
            forall|b: int|
                0 <= b < nb ==> unmarked_sum(
                    #[trigger] board_vals(input@, b),
                    marks_after(board_vals(input@, b), draws, 0),
                    0,
                ) <= i64::MAX,
            grids@.len() == nb,
            mvs@.len() == nb,
            forall|b: int|
                0 <= b < nb ==> bs_inv(#[trigger] grids@[b], mvs@[b]@, board_vals(input@, b))
                    && mvs@[b]@ == marks_after(board_vals(input@, b), draws, t as int),
            forall|b: int|
                0 <= b < nb ==> win_round(#[trigger] board_vals(input@, b), draws)
                    == win_round_from(board_vals(input@, b), draws, t + 1),
        decreases nd - t,
    {
        let x = ds[t];
        proof {
            assert(x as int == draws[t as int]);
            assert(x >= 0);
            assert forall|b2: int| 0 <= b2 < nb implies #[trigger] mvs@[b2]@ == marks_after(
                board_vals(input@, b2),
                draws,
                t as int,
            ) by {
                assert(bs_inv(grids@[b2], mvs@[b2]@, board_vals(input@, b2)) && mvs@[b2]@
                    == marks_after(board_vals(input@, b2), draws, t as int));
            }
        }
        let mut b: usize = 0;
        while b < nb
            invariant
                b <= nb,
                t < nd,
                nb == num_boards(input@),
                draws == draws_of(input@),
                x as int == draws[t as int],
                x >= 0,
                grids@.len() == nb,
                mvs@.len() == nb,
                forall|b2: int|
                    0 <= b2 < nb ==> bs_inv(
                        #[trigger] grids@[b2],
                        mvs@[b2]@,
                        board_vals(input@, b2),
                    ),
                forall|b2: int|
                    0 <= b2 < b ==> #[trigger] mvs@[b2]@ == marks_after(
                        board_vals(input@, b2),
                        draws,
                        t + 1,
                    ),
                forall|b2: int|
                    b <= b2 < nb ==> #[trigger] mvs@[b2]@ == marks_after(
                        board_vals(input@, b2),
                        draws,
                        t as int,
                    ),
            decreases nb - b,
        {
            let ghost old_grids = grids@;
            let ghost old_mvs = mvs@;
            let mut gb = grids.remove(b);
            let mut mb = mvs.remove(b);
            mark_board(&mut gb, &mut mb, x, Ghost(board_vals(input@, b as int)));
            grids.insert(b, gb);
            mvs.insert(b, mb);
            proof {
                assert(grids@ =~= old_grids.update(b as int, gb));
                assert(mvs@ =~= old_mvs.update(b as int, mb));
                assert(mb@ == marks_after(board_vals(input@, b as int), draws, t + 1));
            }
            b += 1;
        }
        proof {
            assert forall|b3: int| 0 <= b3 < nb implies bs_inv(
                #[trigger] grids@[b3],
                mvs@[b3]@,
                board_vals(input@, b3),
            ) && mvs@[b3]@ == marks_after(board_vals(input@, b3), draws, t + 1) by {
                assert(mvs@[b3]@ == marks_after(board_vals(input@, b3), draws, t + 1));
                assert(bs_inv(grids@[b3], mvs@[b3]@, board_vals(input@, b3)));
            }
        }
        let mut cnt: usize = 0;
        let mut found: usize = nb;
        let mut b2: usize = 0;
        while b2 < nb
            invariant
                b2 <= nb,
                t < nd,
                nb == num_boards(input@),
                nb == grids@.len(),
                nb == mvs@.len(),
                draws == draws_of(input@),
                draws.len() == nd,
                forall|b3: int|
                    0 <= b3 < nb ==> bs_inv(
                        #[trigger] grids@[b3],
                        mvs@[b3]@,
                        board_vals(input@, b3),
                    ) && mvs@[b3]@ == marks_after(board_vals(input@, b3), draws, t + 1),
                forall|b3: int|
                    0 <= b3 < nb ==> win_round(#[trigger] board_vals(input@, b3), draws)
                        == win_round_from(board_vals(input@, b3), draws, t + 1),
                cnt == count_at_round(input@, t + 1, 0) - count_at_round(
                    input@,
                    t + 1,
                    b2 as int,
                ),
                cnt <= b2,
                (cnt == 0 ==> found == nb && (forall|b3: int|
                    0 <= b3 < b2 ==> win_round(#[trigger] board_vals(input@, b3), draws) != t
                        + 1)),
                (cnt > 0 ==> found < b2 && win_round(board_vals(input@, found as int), draws)
                    == t + 1 && (forall|b3: int|
                    0 <= b3 < found ==> win_round(#[trigger] board_vals(input@, b3), draws)
                        != t + 1)),
            decreases nb - b2,
        {
            let ghost bv = board_vals(input@, b2 as int);
            let won = board_has_bingo(
                &grids[b2],
                Ghost(mvs@[b2 as int]@),
                Ghost(bv),
            );
            proof {
                lemma_wrf_ge(bv, draws, t + 2);
                if won {
                    assert(win_round_from(bv, draws, t + 1) == t + 1);
                } else {
                    assert(win_round_from(bv, draws, t + 1) == win_round_from(
                        bv,
                        draws,
                        t + 2,
                    ));
                    assert(win_round(bv, draws) != t + 1);
                }
            }
            if won {
                if cnt == 0 {
                    found = b2;
                }
                cnt = cnt + 1;
            }
            b2 += 1;
        }
        if cnt > 0 {
            proof {
                lemma_min_le(input@, 0, found as int);
                assert forall|b3: int| 0 <= b3 < nb implies win_round(
                    #[trigger] board_vals(input@, b3),
                    draws,
                ) >= t + 1 by {
                    lemma_wrf_ge(board_vals(input@, b3), draws, t + 1);
                }
                lemma_min_ge(input@, 0, t + 1);
                assert(min_round_from(input@, 0) == t + 1);
            }
            if cnt != 1 {
                proof {
                    assert(count_at_round(input@, t + 1, 0) == cnt);
                }
                return None;
            }
            proof {
                lemma_first_unique(input@, t + 1, found as int, 0);
                assert(count_at_round(input@, t + 1, 0) == 1);
            }
            let s55 = grid_get(&grids[found], 5, 5);
            proof {
                assert(bs_inv(
                    grids@[found as int],
                    mvs@[found as int]@,
                    board_vals(input@, found as int),
                ));
                lemma_unmarked_nonneg(
                    board_vals(input@, found as int),
                    mvs@[found as int]@,
                    0,
                );
                assert(s55 as int == unmarked_sum(
                    board_vals(input@, found as int),
                    marks_after(board_vals(input@, found as int), draws, t + 1),
                    0,
                ));
                assert(0 <= x as int * s55 as int
                    <= 0x4000_0000_0000_0000_0000_0000_0000_0000) by (nonlinear_arith)
                    requires
                        0 <= x as int <= 0x7fff_ffff_ffff_ffff,
                        0 <= s55 as int <= 0x7fff_ffff_ffff_ffff,
                ;
            }
            let prod: i128 = x as i128 * s55 as i128;
            proof {
                assert(prod == part1_answer(input@));
            }
            if prod > i64::MAX as i128 {
                return None;
            }
            return Some(prod as i64);
        }
        t += 1;
    }
    proof {
        assert forall|b3: int| 0 <= b3 < nb implies win_round(
            #[trigger] board_vals(input@, b3),
            draws,
        ) >= nd + 1 by {
            assert(win_round_from(board_vals(input@, b3), draws, nd + 1) == nd + 1);
        }
        lemma_min_ge(input@, 0, nd + 1);
    }
    None
}

/// Plays the whole draw sequence, skipping grids that have already won,
/// and scores the last grid to win; or reports a malformed input, an
/// unresolved search, or a score beyond the result type.
#[verifier::rlimit(100)]
pub fn try_part2(input: &String) -> (r: Option<i64>)
    ensures
        (r is Some) == part2_ok(input@),
        (match r {
            Some(v) => v == part2_answer(input@),
            None => true,
        }),
{
    let (ds, bvecs) = match parse_input(input) {
        None => {
            return None;
        },
        Some(p) => p,
    };
    let ghost draws = draws_of(input@);
    let nb = bvecs.len();
    let nd = ds.len();
    let mut grids: Vec<Grid> = Vec::new();
    let mut mvs: Vec<Vec<bool>> = Vec::new();
    let mut won: Vec<bool> = Vec::new();
    let mut b0: usize = 0;
    while b0 < nb
        invariant
            b0 <= nb,
            nb == bvecs@.len(),
            nb == num_boards(input@),
            draws == draws_of(input@),
            forall|b: int|
                0 <= b < nb ==> crate::text::ints_of((#[trigger] bvecs@[b])@) == board_vals(
                    input@,
                    b,
                ) && bvecs@[b]@.len() == 25,
            forall|b: int, k: int|
                0 <= b < nb && 0 <= k < 25 ==> #[trigger] (bvecs@[b])@[k] >= 0,
            grids@.len() == b0,
            mvs@.len() == b0,
            won@.len() == b0,
            forall|b: int| 0 <= b < b0 ==> !(#[trigger] won@[b]),
            forall|b: int|
                0 <= b < b0 ==> bs_inv(#[trigger] grids@[b], mvs@[b]@, board_vals(input@, b))
                    && mvs@[b]@ == marks_after(board_vals(input@, b), draws, 0),
        decreases nb - b0,
    {
        let ghost bv = board_vals(input@, b0 as int);
        let p = match init_board(&bvecs[b0]) {
            None => {
                proof {
                    assert(unmarked_sum(bv, marks_after(bv, draws, 0), 0) > i64::MAX);
                }
                return None;
            },
            Some(p) => p,
        };
        grids.push(p.0);
        mvs.push(p.1);
        won.push(false);
        b0 += 1;
    }
    proof {
        assert forall|b: int| 0 <= b < nb implies unmarked_sum(
            #[trigger] board_vals(input@, b),
            marks_after(board_vals(input@, b), draws, 0),
            0,
        ) <= i64::MAX by {
            assert(bs_inv(grids@[b], mvs@[b]@, board_vals(input@, b)));
        }
        assert forall|b: int| 0 <= b < nb implies win_round(
            #[trigger] board_vals(input@, b),
            draws,
        ) > 0 by {
            lemma_wrf_ge(board_vals(input@, b), draws, 1);
        }
        assert(win_round(board_vals(input@, 0), draws) > 0);
    }
    let mut t: usize = 0;
    while t < nd
        invariant
            t <= nd,
            nb == bvecs@.len(),
            nb >= 1,
            nb == num_boards(input@),
            nd == ds@.len(),
            draws == draws_of(input@),
            crate::text::ints_of(ds@) == draws,
            draws.len() == nd,
            parse_ok(input@),
            forall|b: int|
                0 <= b < nb ==> unmarked_sum(
                    #[trigger] board_vals(input@, b),
                    marks_after(board_vals(input@, b), draws, 0),
                    0,
                ) <= i64::MAX,
            grids@.len() == nb,
            mvs@.len() == nb,
            won@.len() == nb,
            forall|b: int|
                0 <= b < nb ==> bs_inv(#[trigger] grids@[b], mvs@[b]@, board_vals(input@, b))
                    && mvs@[b]@ == marks_after(board_vals(input@, b), draws, t as int),
            forall|b: int|
                0 <= b < nb ==> #[trigger] won@[b] == (win_round(board_vals(input@, b), draws)
                    <= t),
            forall|b: int|
                0 <= b < nb && !won@[b] ==> win_round(#[trigger] board_vals(input@, b), draws)
                    == win_round_from(board_vals(input@, b), draws, t + 1),
            exists|b: int|
                0 <= b < nb && win_round(#[trigger] board_vals(input@, b), draws) > t,
        decreases nd - t,
    {
        let x = ds[t];
        proof {
            assert(x as int == draws[t as int]);
            assert(x >= 0);
            assert forall|b2: int| 0 <= b2 < nb implies #[trigger] mvs@[b2]@ == marks_after(
                board_vals(input@, b2),
                draws,
                t as int,
            ) by {
                assert(bs_inv(grids@[b2], mvs@[b2]@, board_vals(input@, b2)) && mvs@[b2]@
                    == marks_after(board_vals(input@, b2), draws, t as int));
            }
        }
        let mut b: usize = 0;
        while b < nb
            invariant
                b <= nb,
                t < nd,
                nb == num_boards(input@),
                draws == draws_of(input@),
                x as int == draws[t as int],
                x >= 0,
                grids@.len() == nb,
                mvs@.len() == nb,
                forall|b2: int|
                    0 <= b2 < nb ==> bs_inv(
                        #[trigger] grids@[b2],
                        mvs@[b2]@,
                        board_vals(input@, b2),
                    ),
                forall|b2: int|
                    0 <= b2 < b ==> #[trigger] mvs@[b2]@ == marks_after(
                        board_vals(input@, b2),
                        draws,
                        t + 1,
                    ),
                forall|b2: int|
                    b <= b2 < nb ==> #[trigger] mvs@[b2]@ == marks_after(
                        board_vals(input@, b2),
                        draws,
                        t as int,
                    ),
            decreases nb - b,
        {
            let ghost old_grids = grids@;
            let ghost old_mvs = mvs@;
            let mut gb = grids.remove(b);
            let mut mb = mvs.remove(b);
            mark_board(&mut gb, &mut mb, x, Ghost(board_vals(input@, b as int)));
            grids.insert(b, gb);
            mvs.insert(b, mb);
            proof {
                assert(grids@ =~= old_grids.update(b as int, gb));
                assert(mvs@ =~= old_mvs.update(b as int, mb));
                assert(mb@ == marks_after(board_vals(input@, b as int), draws, t + 1));
            }
            b += 1;
        }
        proof {
            assert forall|b3: int| 0 <= b3 < nb implies bs_inv(
                #[trigger] grids@[b3],
                mvs@[b3]@,
                board_vals(input@, b3),
            ) && mvs@[b3]@ == marks_after(board_vals(input@, b3), draws, t + 1) by {
                assert(mvs@[b3]@ == marks_after(board_vals(input@, b3), draws, t + 1));
                assert(bs_inv(grids@[b3], mvs@[b3]@, board_vals(input@, b3)));
            }
        }
        let mut cnt: usize = 0;
        let mut found: usize = nb;
        let mut b2: usize = 0;
        while b2 < nb
            invariant
                b2 <= nb,
                t < nd,
                nb == num_boards(input@),
                nb == grids@.len(),
                nb == mvs@.len(),
                nb == won@.len(),
                draws == draws_of(input@),
                draws.len() == nd,
                forall|b3: int|
                    0 <= b3 < nb ==> bs_inv(
                        #[trigger] grids@[b3],
                        mvs@[b3]@,
                        board_vals(input@, b3),
                    ) && mvs@[b3]@ == marks_after(board_vals(input@, b3), draws, t + 1),
                forall|b3: int|
                    0 <= b3 < b2 ==> #[trigger] won@[b3] == (win_round(
                        board_vals(input@, b3),
                        draws,
                    ) <= t + 1),
                forall|b3: int|
                    b2 <= b3 < nb ==> #[trigger] won@[b3] == (win_round(
                        board_vals(input@, b3),
                        draws,
                    ) <= t),
                forall|b3: int|
                    0 <= b3 < b2 && !won@[b3] ==> win_round(
                        #[trigger] board_vals(input@, b3),
                        draws,
                    ) == win_round_from(board_vals(input@, b3), draws, t + 2),
                forall|b3: int|
                    b2 <= b3 < nb && !won@[b3] ==> win_round(
                        #[trigger] board_vals(input@, b3),
                        draws,
                    ) == win_round_from(board_vals(input@, b3), draws, t + 1),
                cnt == count_at_round(input@, t + 1, 0) - count_at_round(
                    input@,
                    t + 1,
                    b2 as int,
                ),
                cnt <= b2,
                (cnt == 0 ==> found == nb && (forall|b3: int|
                    0 <= b3 < b2 ==> win_round(#[trigger] board_vals(input@, b3), draws) != t
                        + 1)),
                (cnt > 0 ==> found < b2 && win_round(board_vals(input@, found as int), draws)
                    == t + 1 && (forall|b3: int|
                    0 <= b3 < found ==> win_round(#[trigger] board_vals(input@, b3), draws)
                        != t + 1)),
            decreases nb - b2,
        {
            let ghost bv = board_vals(input@, b2 as int);
            let already = won[b2];
            if !already {
                let is_won = board_has_bingo(&grids[b2], Ghost(mvs@[b2 as int]@), Ghost(bv));
                proof {
                    lemma_wrf_ge(bv, draws, t + 2);
                    if is_won {
                        assert(win_round_from(bv, draws, t + 1) == t + 1);
                    } else {
                        assert(win_round_from(bv, draws, t + 1) == win_round_from(
                            bv,
                            draws,
                            t + 2,
                        ));
                        assert(win_round(bv, draws) != t + 1);
                    }
                }
                if is_won {
                    won.set(b2, true);
                    if cnt == 0 {
                        found = b2;
                    }
                    cnt = cnt + 1;
                }
            } else {
                proof {
                    assert(win_round(bv, draws) <= t);
                }
            }
            b2 += 1;
        }
        let mut all_won = true;
        let mut b4: usize = 0;
        while b4 < nb
            invariant
                b4 <= nb,
                nb == won@.len(),
                all_won == (forall|b5: int| 0 <= b5 < b4 ==> #[trigger] won@[b5]),
            decreases nb - b4,
        {
            if !won[b4] {
                all_won = false;
            }
            b4 += 1;
        }
        if all_won {
            proof {
                assert forall|b5: int| 0 <= b5 < nb implies win_round(
                    #[trigger] board_vals(input@, b5),
                    draws,
                ) <= t + 1 by {
                    assert(won@[b5]);
                }
                lemma_max_le(input@, 0, t + 1);
                if cnt == 0 {
                    let ghost bw = choose|b5: int|
                        0 <= b5 < nb && win_round(#[trigger] board_vals(input@, b5), draws)
                            > t;
                    assert(win_round(board_vals(input@, bw), draws) == t + 1);
                    assert(false);
                }
                lemma_max_ge(input@, 0, found as int);
                assert(max_round_from(input@, 0) == t + 1);
            }
            if cnt != 1 {
                proof {
                    assert(count_at_round(input@, t + 1, 0) == cnt);
                }
                return None;
            }
            proof {
                lemma_first_unique(input@, t + 1, found as int, 0);
                assert(count_at_round(input@, t + 1, 0) == 1);
            }
            let s55 = grid_get(&grids[found], 5, 5);
            proof {
                assert(bs_inv(
                    grids@[found as int],
                    mvs@[found as int]@,
                    board_vals(input@, found as int),
                ));
                lemma_unmarked_nonneg(
                    board_vals(input@, found as int),
                    mvs@[found as int]@,
                    0,
                );
                assert(s55 as int == unmarked_sum(
                    board_vals(input@, found as int),
                    marks_after(board_vals(input@, found as int), draws, t + 1),
                    0,
                ));
                assert(0 <= x as int * s55 as int
                    <= 0x4000_0000_0000_0000_0000_0000_0000_0000) by (nonlinear_arith)
                    requires
                        0 <= x as int <= 0x7fff_ffff_ffff_ffff,
                        0 <= s55 as int <= 0x7fff_ffff_ffff_ffff,
                ;
            }
            let prod: i128 = x as i128 * s55 as i128;
            proof {
                assert(prod == part2_answer(input@));
            }
            if prod > i64::MAX as i128 {
                return None;
            }
            return Some(prod as i64);
        }
        proof {
            let bnw = choose|b5: int| 0 <= b5 < nb && !(#[trigger] won@[b5]);
            assert(win_round(board_vals(input@, bnw), draws) > t + 1);
        }
        t += 1;
    }
    proof {
        let bnw = choose|b5: int|
            0 <= b5 < nb && win_round(#[trigger] board_vals(input@, b5), draws) > nd;
        lemma_max_ge(input@, 0, bnw);
        assert(max_round_from(input@, 0) > nd);
    }
    None
}

/// The score of the first grid to win.
pub fn solve_part1(input: &String, _input_mode: &InputMode) -> (r: i64)
    requires
        part1_ok(input@),
    ensures
        r == part1_answer(input@),
{
    match try_part1(input) {
        Some(v) => v,
        None => {
            proof {
                assert(false);
            }
            0
        },
    }
}

/// The score of the last grid to win.
pub fn solve_part2(input: &String, _input_mode: &InputMode) -> (r: i64)
    requires
        part2_ok(input@),
    ensures
        r == part2_answer(input@),
{
    match try_part2(input) {
        Some(v) => v,
        None => {
            proof {
                assert(false);
            }
            0
        },
    }
}
} // verus!
