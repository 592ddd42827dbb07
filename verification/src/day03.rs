//! Majority/minority bit-filter.
//!
//! The input is a list of fixed-width binary strings.  Part one takes,
//! per column, the majority bit to build one value and its complement to
//! build another, and multiplies the two.  Part two filters the list
//! column by column, keeping the rows whose bit matches a majority or
//! minority predicate, until a single row survives; the answer is the
//! product of the two surviving rows' values.

use vstd::prelude::*;
use vstd::arithmetic::power2::pow2;
use crate::InputMode;
use crate::text::{chars_of, lines_of, spec_lines, subvec, views_of};

verus! {

/// A binary value as a vector of bits, most significant first.
pub type BinVec = Vec<bool>;

/// Whether every character of `t` is a binary digit.
pub open spec fn is_bit_str(t: Seq<char>) -> bool {
    forall|i: int| 0 <= i < t.len() ==> #[trigger] t[i] == '0' || t[i] == '1'
}

/// The bits spelled by a binary string.
pub open spec fn bits_of(t: Seq<char>) -> Seq<bool> {
    t.map_values(|c: char| c == '1')
}

/// The value of a bit sequence, most significant bit first.
pub open spec fn bits_val(b: Seq<bool>) -> int
    decreases b.len(),
{
    if b.len() == 0 {
        0
    } else {
        bits_val(b.drop_last()) * 2 + if b.last() {
            1int
        } else {
            0int
        }
    }
}

/// A bit sequence's value lies below two to its length.
pub proof fn lemma_bits_val_bounds(b: Seq<bool>)
    ensures
        0 <= bits_val(b) < pow2(b.len()),
    decreases b.len(),
{
    vstd::arithmetic::power2::lemma_pow2_pos(b.len());
    if b.len() > 0 {
        lemma_bits_val_bounds(b.drop_last());
        vstd::arithmetic::power2::lemma_pow2_unfold(b.len());
    }
}

/// The bit sequence of the given width that spells a value, dropping
/// any bits beyond the width.
pub open spec fn spec_dec2bin(v: int, w: nat) -> Seq<bool>
    decreases w,
{
    if w == 0 {
        Seq::<bool>::empty()
    } else {
        spec_dec2bin(v / 2, (w - 1) as nat).push(v % 2 == 1)
    }
}

/// Law: decoding a bit vector of width at most 63 and re-encoding it to
/// the same width reproduces the vector exactly.
pub proof fn lemma_bits_roundtrip(b: Seq<bool>)
    requires
        b.len() <= 63,
    ensures
        spec_dec2bin(bits_val(b), b.len()) == b,
    decreases b.len(),
{
    if b.len() > 0 {
        lemma_bits_roundtrip(b.drop_last());
        lemma_bits_val_bounds(b.drop_last());
        let v = bits_val(b);
        let p = bits_val(b.drop_last());
        assert(v == p * 2 + if b.last() {
            1int
        } else {
            0int
        });
        assert(v / 2 == p);
        assert((v % 2 == 1) == b.last());
        assert(spec_dec2bin(v, b.len()) =~= b);
    } else {
        assert(spec_dec2bin(bits_val(b), 0) =~= b);
    }
}

/// Converts a string of binary digits to its bit vector.
pub fn str2binvec(s: &str) -> (r: BinVec)
    requires
        is_bit_str(s@),
    ensures
        r@ == bits_of(s@),
{
    let cs = chars_of(s);
    match bits_from_chars(&cs) {
        Some(b) => b,
        None => {
            proof {
                assert(false);
            }
            Vec::new()
        },
    }
}

/// Converts binary-digit characters to bits, or reports a stray
/// character.
fn bits_from_chars(t: &Vec<char>) -> (r: Option<Vec<bool>>)
    ensures
        (r is Some) == is_bit_str(t@),
        (match r {
            Some(b) => b@ == bits_of(t@),
            None => true,
        }),
{
    let n = t.len();
    let mut b: Vec<bool> = Vec::new();
    let mut i: usize = 0;
    while i < n
        invariant
            i <= n,
            n == t@.len(),
            b@.len() == i,
            forall|j: int| 0 <= j < i ==> (#[trigger] t@[j] == '0' || t@[j] == '1'),
            forall|j: int| 0 <= j < i ==> b@[j] == (t@[j] == '1'),
        decreases n - i,
    {
        let c = t[i];
        if c == '1' {
            b.push(true);
        } else if c == '0' {
            b.push(false);
        } else {
            return None;
        }
        i += 1;
    }
    proof {
        assert(b@ =~= bits_of(t@));
    }
    Some(b)
}

/// Converts a bit vector to its decimal value.
pub fn bin2dec(vec: &BinVec) -> (r: i64)
    requires
        vec@.len() <= 63,
    ensures
        r == bits_val(vec@),
        0 <= r,
{
    let n = vec.len();
    let mut acc: u64 = 0;
    let mut i: usize = 0;
    proof {
        vstd::arithmetic::power2::lemma2_to64();
    }
    while i < n
        invariant
            i <= n <= 63,
            n == vec@.len(),
            acc == bits_val(vec@.subrange(0, i as int)),
            acc < pow2(i as nat),
        decreases n - i,
    {
        proof {
            assert(vec@.subrange(0, i + 1 as int).drop_last() =~= vec@.subrange(0, i as int));
            assert(vec@.subrange(0, i + 1 as int).last() == vec@[i as int]);
            vstd::arithmetic::power2::lemma_pow2_unfold((i + 1) as nat);
            vstd::arithmetic::power2::lemma2_to64();
            vstd::arithmetic::power2::lemma2_to64_rest();
            if i + 1 < 63 {
                vstd::arithmetic::power2::lemma_pow2_strictly_increases((i + 1) as nat, 63);
            }
        }
        acc = acc * 2 + if vec[i] {
            1
        } else {
            0
        };
        i += 1;
    }
    proof {
        assert(vec@.subrange(0, n as int) =~= vec@);
        vstd::arithmetic::power2::lemma2_to64();
        vstd::arithmetic::power2::lemma2_to64_rest();
        if n < 63 {
            vstd::arithmetic::power2::lemma_pow2_strictly_increases(n as nat, 63);
        }
    }
    acc as i64
}

/// Encodes a non-negative value as a bit vector of the given width.
pub fn dec2bin(value: i64, width: usize) -> (r: BinVec)
    requires
        0 <= value,
        width <= 63,
    ensures
        r@ == spec_dec2bin(value as int, width as nat),
    decreases width,
{
    if width == 0 {
        Vec::new()
    } else {
        let half: i64 = ((value as u64) / 2) as i64;
        let mut r = dec2bin(half, width - 1);
        r.push((value as u64) % 2 == 1);
        r
    }
}

/// The rows of bits spelled by the input's records.
pub open spec fn rows_of(s: Seq<char>) -> Seq<Seq<bool>> {
    spec_lines(s).map_values(|l: Seq<char>| bits_of(l))
}

/// Whether the input is a non-empty list of equal-width binary strings.
pub open spec fn grid_ok(s: Seq<char>) -> bool {
    &&& spec_lines(s).len() >= 1
    &&& (forall|i: int| 0 <= i < spec_lines(s).len() ==> is_bit_str(#[trigger] spec_lines(s)[i]))
    &&& (forall|i: int|
        0 <= i < spec_lines(s).len() ==> (#[trigger] spec_lines(s)[i]).len() == spec_lines(
            s,
        )[0].len())
}

/// The common width of the rows.
pub open spec fn width_of(s: Seq<char>) -> int {
    spec_lines(s)[0].len() as int
}

/// How many rows have a one-bit in the given column.
pub open spec fn col_ones(rows: Seq<Seq<bool>>, j: int) -> int
    decreases rows.len(),
{
    if rows.len() == 0 {
        0
    } else {
        col_ones(rows.drop_last(), j) + if rows.last()[j] {
            1int
        } else {
            0int
        }
    }
}

pub proof fn lemma_col_ones_bounds(rows: Seq<Seq<bool>>, j: int)
    ensures
        0 <= col_ones(rows, j) <= rows.len(),
    decreases rows.len(),
{
    if rows.len() > 0 {
        lemma_col_ones_bounds(rows.drop_last(), j);
    }
}

/// The per-column majority bits of the rows.
pub open spec fn gamma_bits(rows: Seq<Seq<bool>>, w: int) -> Seq<bool> {
    Seq::new(w as nat, |j: int| col_ones(rows, j) > rows.len() / 2)
}

/// The complement of a bit sequence.
pub open spec fn flip_bits(b: Seq<bool>) -> Seq<bool> {
    b.map_values(|x: bool| !x)
}

pub open spec fn part1_ok(s: Seq<char>) -> bool {
    grid_ok(s) && width_of(s) <= 31 && spec_lines(s).len() <= u32::MAX
}

pub open spec fn part1_answer(s: Seq<char>) -> int {
    bits_val(gamma_bits(rows_of(s), width_of(s))) * bits_val(
        flip_bits(gamma_bits(rows_of(s), width_of(s))),
    )
}

/// The rows whose bit in the given column equals `bit`.
pub open spec fn keep_matching(rows: Seq<Seq<bool>>, pos: int, bit: bool) -> Seq<Seq<bool>>
    decreases rows.len(),
{
    if rows.len() == 0 {
        Seq::<Seq<bool>>::empty()
    } else {
        let rest = keep_matching(rows.drop_last(), pos, bit);
        if rows.last()[pos] == bit {
            rest.push(rows.last())
        } else {
            rest
        }
    }
}

/// The bit value kept by one filter round: the majority predicate keeps
/// the ones side on a tie, the minority predicate keeps the zeros side.
pub open spec fn keep_bit(rows: Seq<Seq<bool>>, pos: int, majority: bool) -> bool {
    if majority {
        2 * col_ones(rows, pos) >= rows.len()
    } else {
        rows.len() - col_ones(rows, pos) > col_ones(rows, pos)
    }
}

/// The surviving rows after `pos` filter rounds; a round does nothing
/// once one row is left.
pub open spec fn run_filter(rows: Seq<Seq<bool>>, pos: nat, majority: bool) -> Seq<Seq<bool>>
    decreases pos,
{
    if pos == 0 {
        rows
    } else {
        let prev = run_filter(rows, (pos - 1) as nat, majority);
        if prev.len() <= 1 {
            prev
        } else {
            keep_matching(prev, pos - 1, keep_bit(prev, pos - 1, majority))
        }
    }
}

/// Once the filter is down to at most one row, further rounds change
/// nothing.
pub proof fn lemma_run_filter_stable(rows: Seq<Seq<bool>>, p: nat, w: nat, majority: bool)
    requires
        p <= w,
        run_filter(rows, p, majority).len() <= 1,
    ensures
        run_filter(rows, w, majority) == run_filter(rows, p, majority),
    decreases w - p,
{
    if p < w {
        lemma_run_filter_stable(rows, (p + 1) as nat, w, majority);
    }
}

/// Whether the iterated filter resolves to exactly one surviving row.
pub open spec fn filter_success(rows: Seq<Seq<bool>>, w: nat, majority: bool) -> bool {
    run_filter(rows, w, majority).len() == 1
}

pub open spec fn filter_result(rows: Seq<Seq<bool>>, w: nat, majority: bool) -> Seq<bool> {
    run_filter(rows, w, majority)[0]
}

pub open spec fn part2_ok(s: Seq<char>) -> bool {
    &&& grid_ok(s)
    &&& width_of(s) <= 31
    &&& spec_lines(s).len() <= u32::MAX
    &&& filter_success(rows_of(s), width_of(s) as nat, true)
    &&& filter_success(rows_of(s), width_of(s) as nat, false)
}

pub open spec fn part2_answer(s: Seq<char>) -> int {
    bits_val(filter_result(rows_of(s), width_of(s) as nat, true)) * bits_val(
        filter_result(rows_of(s), width_of(s) as nat, false),
    )
}

/// Reads the input's records into bit vectors.
pub fn read_into_binvec(input: &String) -> (r: Vec<BinVec>)
    requires
        forall|i: int| 0 <= i < spec_lines(input@).len() ==> is_bit_str(#[trigger] spec_lines(input@)[i]),
    ensures
        views_of(r@) == rows_of(input@),
{
    match try_read_rows(input) {
        Some(r) => r,
        None => {
            proof {
                assert(false);
            }
            Vec::new()
        },
    }
}

/// Reads the records into bit vectors, or reports a stray character.
fn try_read_rows(input: &String) -> (r: Option<Vec<Vec<bool>>>)
    ensures
        (r is Some) == (forall|i: int|
            0 <= i < spec_lines(input@).len() ==> is_bit_str(#[trigger] spec_lines(input@)[i])),
        (match r {
            Some(rows) => {
                &&& views_of(rows@) == rows_of(input@)
                &&& rows@.len() == spec_lines(input@).len()
                &&& (forall|i: int|
                    0 <= i < rows@.len() ==> (#[trigger] rows@[i])@ == bits_of(
                        spec_lines(input@)[i],
                    ))
            },
            None => true,
        }),
{
    let cs = chars_of(input.as_str());
    let ls = lines_of(&cs);
    let ghost lviews = spec_lines(input@);
    proof {
        assert(views_of(ls@) =~= lviews);
    }
    let n = ls.len();
    let mut rows: Vec<Vec<bool>> = Vec::new();
    let mut i: usize = 0;
    while i < n
        invariant
            i <= n,
            n == ls@.len(),
            lviews == spec_lines(input@),
            views_of(ls@) == lviews,
            rows@.len() == i,
            forall|j: int| 0 <= j < i ==> is_bit_str(#[trigger] lviews[j]),
            forall|j: int| 0 <= j < i ==> (#[trigger] rows@[j])@ == bits_of(lviews[j]),
        decreases n - i,
    {
        match bits_from_chars(&ls[i]) {
            None => {
                proof {
                    assert(!is_bit_str(lviews[i as int]));
                }
                return None;
            },
            Some(b) => {
                rows.push(b);
            },
        }
        i += 1;
    }
    proof {
        assert(views_of(rows@) =~= rows_of(input@));
    }
    Some(rows)
}

/// Counts the zero and one bits in one column.
pub fn count_bits(data: &Vec<BinVec>, bit_pos: usize) -> (r: (u32, u32))
    requires
        data@.len() <= u32::MAX,
        forall|i: int| 0 <= i < data@.len() ==> bit_pos < (#[trigger] data@[i])@.len(),
    ensures
        r.1 == col_ones(views_of(data@), bit_pos as int),
        r.0 == data@.len() - col_ones(views_of(data@), bit_pos as int),
{
    let ghost rows = views_of(data@);
    let n = data.len();
    let mut ones: u32 = 0;
    let mut i: usize = 0;
    while i < n
        invariant
            i <= n,
            n == data@.len(),
            n <= u32::MAX,
            rows == views_of(data@),
            forall|j: int| 0 <= j < n ==> bit_pos < (#[trigger] data@[j])@.len(),
            ones == col_ones(rows.subrange(0, i as int), bit_pos as int),
            ones <= i,
        decreases n - i,
    {
        proof {
            assert(rows.subrange(0, i + 1 as int).drop_last() =~= rows.subrange(0, i as int));
            assert(rows.subrange(0, i + 1 as int).last() == rows[i as int]);
        }
        if data[i][bit_pos] {
            ones = ones + 1;
        }
        i += 1;
    }
    proof {
        assert(rows.subrange(0, n as int) =~= rows);
        lemma_col_ones_bounds(rows, bit_pos as int);
    }
    (n as u32 - ones, ones)
}

/// One filter pass: keeps the rows whose bit in `pos` equals `bit`.
fn retain_matching(data: &Vec<Vec<bool>>, pos: usize, bit: bool) -> (r: Vec<Vec<bool>>)
    requires
        forall|i: int| 0 <= i < data@.len() ==> pos < (#[trigger] data@[i])@.len(),
    ensures
        views_of(r@) == keep_matching(views_of(data@), pos as int, bit),
        r@.len() == keep_matching(views_of(data@), pos as int, bit).len(),
        forall|i: int|
            0 <= i < r@.len() ==> (#[trigger] r@[i])@ == keep_matching(
                views_of(data@),
                pos as int,
                bit,
            )[i],
{
    let ghost rows = views_of(data@);
    let n = data.len();
    let mut out: Vec<Vec<bool>> = Vec::new();
    let mut i: usize = 0;
    while i < n
        invariant
            i <= n,
            n == data@.len(),
            rows == views_of(data@),
            forall|j: int| 0 <= j < n ==> pos < (#[trigger] data@[j])@.len(),
            views_of(out@) == keep_matching(rows.subrange(0, i as int), pos as int, bit),
        decreases n - i,
    {
        proof {
            assert(rows.subrange(0, i + 1 as int).drop_last() =~= rows.subrange(0, i as int));
            assert(rows.subrange(0, i + 1 as int).last() == rows[i as int]);
        }
        if data[i][pos] == bit {
            let row = copy_row(&data[i]);
            proof {
                assert(row@ =~= rows[i as int]);
            }
            out.push(row);
        }
        proof {
            assert(views_of(out@) =~= keep_matching(
                rows.subrange(0, i + 1 as int),
                pos as int,
                bit,
            ));
        }
        i += 1;
    }
    proof {
        assert(rows.subrange(0, n as int) =~= rows);
    }
    out
}

/// A copy of one bit row.
fn copy_row(row: &Vec<bool>) -> (r: Vec<bool>)
    ensures
        r@ == row@,
{
    let n = row.len();
    let mut r: Vec<bool> = Vec::new();
    let mut i: usize = 0;
    while i < n
        invariant
            i <= n,
            n == row@.len(),
            r@ == row@.subrange(0, i as int),
        decreases n - i,
    {
        r.push(row[i]);
        proof {
            assert(row@.subrange(0, i as int).push(row@[i as int]) =~= row@.subrange(
                0,
                i + 1 as int,
            ));
        }
        i += 1;
    }
    proof {
        assert(row@.subrange(0, n as int) =~= row@);
    }
    r
}

/// Runs the iterated column filter, or reports that it does not resolve
/// to exactly one surviving row.
fn filter_by_bit_pattern(data: &Vec<Vec<bool>>, w: usize, majority: bool) -> (r: Option<
    Vec<bool>,
>)
    requires
        data@.len() <= u32::MAX,
        forall|i: int| 0 <= i < data@.len() ==> (#[trigger] data@[i])@.len() == w,
    ensures
        (r is Some) == filter_success(views_of(data@), w as nat, majority),
        (match r {
            Some(row) => row@ == filter_result(views_of(data@), w as nat, majority) && row@.len()
                == w,
            None => true,
        }),
{
    let ghost rows0 = views_of(data@);
    let mut filtered = copy_rows(data);
    let mut pos: usize = 0;
    proof {
        assert(views_of(filtered@) =~= rows0);
        assert(forall|i: int|
            0 <= i < filtered@.len() ==> (#[trigger] filtered@[i])@.len() == w);
    }
    while filtered.len() > 1 && pos < w
        invariant
            pos <= w,
            rows0 == views_of(data@),
            views_of(filtered@) == run_filter(rows0, pos as nat, majority),
            filtered@.len() <= u32::MAX,
            forall|i: int| 0 <= i < filtered@.len() ==> (#[trigger] filtered@[i])@.len() == w,
        decreases w - pos,
    {
        let ghost cur = views_of(filtered@);
        let (n0, n1) = count_bits(&filtered, pos);
        let keep: bool = if majority {
            n1 >= n0
        } else {
            n0 > n1
        };
        proof {
            assert(keep == keep_bit(cur, pos as int, majority));
        }
        let next = retain_matching(&filtered, pos, keep);
        proof {
            assert(views_of(next@) == run_filter(rows0, (pos + 1) as nat, majority));
            lemma_keep_matching_shape(cur, pos as int, keep, w as int);
            assert(forall|i: int|
                0 <= i < next@.len() ==> (#[trigger] next@[i])@.len() == w);
        }
        filtered = next;
        pos += 1;
    }
    if filtered.len() == 1 {
        proof {
            lemma_run_filter_stable(rows0, pos as nat, w as nat, majority);
        }
        let row = copy_row(&filtered[0]);
        proof {
            assert(row@ =~= views_of(filtered@)[0]);
        }
        Some(row)
    } else {
        proof {
            if filtered.len() > 1 {
                assert(pos == w);
            } else {
                lemma_run_filter_stable(rows0, pos as nat, w as nat, majority);
            }
        }
        None
    }
}

/// Every row kept by one pass keeps its width.
proof fn lemma_keep_matching_shape(rows: Seq<Seq<bool>>, pos: int, bit: bool, w: int)
    requires
        forall|i: int| 0 <= i < rows.len() ==> (#[trigger] rows[i]).len() == w,
    ensures
        keep_matching(rows, pos, bit).len() <= rows.len(),
        forall|i: int|
            0 <= i < keep_matching(rows, pos, bit).len() ==> (#[trigger] keep_matching(
                rows,
                pos,
                bit,
            )[i]).len() == w,
    decreases rows.len(),
{
    if rows.len() > 0 {
        assert(forall|i: int|
            0 <= i < rows.drop_last().len() ==> (#[trigger] rows.drop_last()[i]).len() == w);
        lemma_keep_matching_shape(rows.drop_last(), pos, bit, w);
    }
}

/// A copy of all rows.
fn copy_rows(data: &Vec<Vec<bool>>) -> (r: Vec<Vec<bool>>)
    ensures
        views_of(r@) == views_of(data@),
        r@.len() == data@.len(),
        forall|i: int| 0 <= i < r@.len() ==> (#[trigger] r@[i])@ == data@[i]@,
{
    let n = data.len();
    let mut r: Vec<Vec<bool>> = Vec::new();
    let mut i: usize = 0;
    while i < n
        invariant
            i <= n,
            n == data@.len(),
            r@.len() == i,
            forall|j: int| 0 <= j < i ==> (#[trigger] r@[j])@ == data@[j]@,
        decreases n - i,
    {
        let row = copy_row(&data[i]);
        r.push(row);
        i += 1;
    }
    proof {
        assert(views_of(r@) =~= views_of(data@));
    }
    r
}

/// Checks the grid shape and reports the width, or what is wrong.
fn check_grid(rows: &Vec<Vec<bool>>) -> (r: Option<usize>)
    ensures
        (r is Some) == (rows@.len() >= 1 && (forall|i: int|
            0 <= i < rows@.len() ==> (#[trigger] rows@[i])@.len() == rows@[0]@.len())),
        (match r {
            Some(w) => rows@.len() >= 1 && w == rows@[0]@.len() && (forall|i: int|
                0 <= i < rows@.len() ==> (#[trigger] rows@[i])@.len() == w),
            None => true,
        }),
{
    if rows.len() == 0 {
        return None;
    }
    let w = rows[0].len();
    let n = rows.len();
    let mut i: usize = 0;
    while i < n
        invariant
            i <= n,
            n == rows@.len(),
            n >= 1,
            w == rows@[0]@.len(),
            forall|j: int| 0 <= j < i ==> (#[trigger] rows@[j])@.len() == w,
        decreases n - i,
    {
        if rows[i].len() != w {
            return None;
        }
        i += 1;
    }
    Some(w)
}

/// Computes the majority/minority column product, or reports a
/// malformed or oversized grid.
pub fn try_part1(input: &String) -> (r: Option<i64>)
    ensures
        (r is Some) == part1_ok(input@),
        (match r {
            Some(v) => v == part1_answer(input@),
            None => true,
        }),
{
    let rows = match try_read_rows(input) {
        None => {
            return None;
        },
        Some(rows) => rows,
    };
    let ghost rviews = rows_of(input@);
    let ghost lviews = spec_lines(input@);
    let w = match check_grid(&rows) {
        None => {
            proof {
                if grid_ok(input@) {
                    assert(forall|i: int|
                        0 <= i < rows@.len() ==> (#[trigger] rows@[i])@.len()
                            == rows@[0]@.len());
                }
            }
            return None;
        },
        Some(w) => w,
    };
    if w > 31 {
        proof {
            assert(rows@[0]@.len() == lviews[0].len());
        }
        return None;
    }
    if rows.len() as u64 > u32::MAX as u64 {
        return None;
    }
    proof {
        assert(rows@[0]@.len() == lviews[0].len());
        assert(width_of(input@) == w);
    }
    let ghost gam = gamma_bits(rviews, w as int);
    let n = rows.len();
    let mut gamma: Vec<bool> = Vec::new();
    let mut j: usize = 0;
    while j < w
        invariant
            j <= w,
            n == rows@.len(),
            1 <= n <= u32::MAX,
            rviews == views_of(rows@),
            forall|i: int| 0 <= i < n ==> (#[trigger] rows@[i])@.len() == w,
            gam == gamma_bits(rviews, w as int),
            gamma@ == gam.subrange(0, j as int),
        decreases w - j,
    {
        let (_, n1) = count_bits(&rows, j);
        let bit = n1 as usize > n / 2;
        proof {
            assert(gam[j as int] == (col_ones(rviews, j as int) > rviews.len() / 2));
            assert(gam.subrange(0, j as int).push(gam[j as int]) =~= gam.subrange(
                0,
                j + 1 as int,
            ));
        }
        gamma.push(bit);
        j += 1;
    }
    proof {
        assert(gam.subrange(0, w as int) =~= gam);
    }
    let mut eps: Vec<bool> = Vec::new();
    let mut k: usize = 0;
    while k < w
        invariant
            k <= w,
            gamma@ == gam,
            gam.len() == w,
            eps@ == flip_bits(gam).subrange(0, k as int),
        decreases w - k,
    {
        proof {
            assert(flip_bits(gam)[k as int] == !gam[k as int]);
            assert(flip_bits(gam).subrange(0, k as int).push(flip_bits(gam)[k as int])
                =~= flip_bits(gam).subrange(0, k + 1 as int));
        }
        eps.push(!gamma[k]);
        k += 1;
    }
    proof {
        assert(flip_bits(gam).subrange(0, w as int) =~= flip_bits(gam));
    }
    let g = bin2dec(&gamma);
    let e = bin2dec(&eps);
    proof {
        lemma_bits_val_bounds(gam);
        lemma_bits_val_bounds(flip_bits(gam));
        vstd::arithmetic::power2::lemma2_to64();
        if (w as nat) < 31 {
            vstd::arithmetic::power2::lemma_pow2_strictly_increases(w as nat, 31);
        }
        assert(g * e <= 0x7fff_ffff_ffff_ffff && g * e >= 0) by (nonlinear_arith)
            requires
                0 <= g <= 0x8000_0000,
                0 <= e <= 0x8000_0000,
        ;
        assert forall|i: int| 0 <= i < lviews.len() implies (#[trigger] lviews[i]).len()
            == lviews[0].len() by {
            assert(rows@[i]@ == bits_of(lviews[i]));
            assert(rows@[0]@ == bits_of(lviews[0]));
            assert(rows@[i]@.len() == w);
            assert(rows@[0]@.len() == w);
        }
        assert(grid_ok(input@));
        assert(part1_ok(input@));
    }
    Some(g * e)
}

/// Runs both iterated filters and multiplies the survivors, or reports
/// a malformed grid or an unresolved filter.
pub fn try_part2(input: &String) -> (r: Option<i64>)
    ensures
        (r is Some) == part2_ok(input@),
        (match r {
            Some(v) => v == part2_answer(input@),
            None => true,
        }),
{
    let rows = match try_read_rows(input) {
        None => {
            return None;
        },
        Some(rows) => rows,
    };
    let ghost rviews = rows_of(input@);
    let ghost lviews = spec_lines(input@);
    let w = match check_grid(&rows) {
        None => {
            proof {
                if grid_ok(input@) {
                    assert(forall|i: int|
                        0 <= i < rows@.len() ==> (#[trigger] rows@[i])@.len()
                            == rows@[0]@.len());
                }
            }
            return None;
        },
        Some(w) => w,
    };
    if w > 31 {
        proof {
            assert(rows@[0]@.len() == lviews[0].len());
        }
        return None;
    }
    if rows.len() as u64 > u32::MAX as u64 {
        return None;
    }
    proof {
        assert(rows@[0]@.len() == lviews[0].len());
        assert(width_of(input@) == w);
    }
    let oxy = match filter_by_bit_pattern(&rows, w, true) {
        None => {
            return None;
        },
        Some(row) => row,
    };
    let co2 = match filter_by_bit_pattern(&rows, w, false) {
        None => {
            return None;
        },
        Some(row) => row,
    };
    let o = bin2dec(&oxy);
    let c = bin2dec(&co2);
    proof {
        lemma_bits_val_bounds(oxy@);
        lemma_bits_val_bounds(co2@);
        vstd::arithmetic::power2::lemma2_to64();
        if (w as nat) < 31 {
            vstd::arithmetic::power2::lemma_pow2_strictly_increases(w as nat, 31);
        }
        assert(o * c <= 0x7fff_ffff_ffff_ffff && o * c >= 0) by (nonlinear_arith)
            requires
                0 <= o <= 0x8000_0000,
                0 <= c <= 0x8000_0000,
        ;
        assert forall|i: int| 0 <= i < lviews.len() implies (#[trigger] lviews[i]).len()
            == lviews[0].len() by {
            assert(rows@[i]@ == bits_of(lviews[i]));
            assert(rows@[0]@ == bits_of(lviews[0]));
            assert(rows@[i]@.len() == w);
            assert(rows@[0]@.len() == w);
        }
        assert(grid_ok(input@));
        assert(part2_ok(input@));
    }
    Some(o * c)
}

/// The product of the majority-bit value and its complement's value.
pub fn solve_part1(input: &String, _input_mode: &InputMode) -> (r: i64)
    requires
        part1_ok(input@),
    ensures
        r == part1_answer(input@),
{
    match try_part1(input) {
        Some(v) => v,
        None => {
            proof {
                assert(false);
            }
            0
        },
    }
}

/// The product of the two filter survivors' values.
pub fn solve_part2(input: &String, _input_mode: &InputMode) -> (r: i64)
    requires
        part2_ok(input@),
    ensures
        r == part2_answer(input@),
{
    match try_part2(input) {
        Some(v) => v,
        None => {
            proof {
                assert(false);
            }
            0
        },
    }
}

} // verus!
