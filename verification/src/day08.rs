//! Pattern-length tally and seven-segment decoding.
//!
//! Each input record holds signal patterns and output tokens separated
//! by `|`.  Part one counts output tokens whose length alone identifies
//! a digit (lengths 2, 3, 4 and 7 spell 1, 7, 4 and 8).  Part two
//! decodes every output token into a digit: the tokens of length five
//! and six are told apart by how they overlap the record's own patterns
//! for 1 and 4, and each record's digits form a decimal number whose
//! grand total is the answer.

use vstd::prelude::*;
use crate::InputMode;
use crate::text::{
    chars_of, lines_of, nonempty_tokens, spec_lines, spec_split, spec_trim, split_char, subvec,
    tokens_of, trim_chars, views_of,
};

verus! {

/// Whether a token's length alone identifies a digit.
pub open spec fn easy_len(t: Seq<char>) -> bool {
    t.len() == 2 || t.len() == 3 || t.len() == 4 || t.len() == 7
}

/// The output tokens of one record: the space-separated tokens after the
/// first `|`.
pub open spec fn output_tokens(l: Seq<char>) -> Seq<Seq<char>> {
    nonempty_tokens(spec_split(spec_trim(spec_split(l, '|')[1]), ' '))
}

/// The signal-pattern tokens of one record: the space-separated tokens
/// before the first `|`.
pub open spec fn pattern_tokens(l: Seq<char>) -> Seq<Seq<char>> {
    nonempty_tokens(spec_split(spec_trim(spec_split(l, '|')[0]), ' '))
}

/// Whether a record has an output part at all.
pub open spec fn line_split_ok(l: Seq<char>) -> bool {
    spec_split(l, '|').len() >= 2
}

/// How many tokens of `ts` have an identifying length.
pub open spec fn count_easy(ts: Seq<Seq<char>>) -> int
    decreases ts.len(),
{
    if ts.len() == 0 {
        0
    } else {
        count_easy(ts.drop_last()) + if easy_len(ts.last()) {
            1int
        } else {
            0int
        }
    }
}

/// The part-one tally over a sequence of records.
pub open spec fn count_lines(ls: Seq<Seq<char>>) -> int
    decreases ls.len(),
{
    if ls.len() == 0 {
        0
    } else {
        count_lines(ls.drop_last()) + count_easy(output_tokens(ls.last()))
    }
}

/// The records of the input, after trimming.
pub open spec fn records_of(s: Seq<char>) -> Seq<Seq<char>> {
    spec_lines(spec_trim(s))
}

pub open spec fn part1_ok(s: Seq<char>) -> bool {
    &&& (forall|i: int|
        0 <= i < records_of(s).len() ==> line_split_ok(#[trigger] records_of(s)[i]))
    &&& count_lines(records_of(s)) <= i64::MAX
}

pub open spec fn part1_answer(s: Seq<char>) -> int {
    count_lines(records_of(s))
}

pub proof fn lemma_count_easy_nonneg(ts: Seq<Seq<char>>)
    ensures
        count_easy(ts) >= 0,
    decreases ts.len(),
{
    if ts.len() > 0 {
        lemma_count_easy_nonneg(ts.drop_last());
    }
}

pub proof fn lemma_count_lines_prefix(ls: Seq<Seq<char>>, k: int)
    requires
        0 <= k <= ls.len(),
    ensures
        count_lines(ls.subrange(0, k)) <= count_lines(ls),
    decreases ls.len() - k,
{
    if k == ls.len() {
        assert(ls.subrange(0, k) =~= ls);
    } else {
        lemma_count_lines_prefix(ls, k + 1);
        assert(ls.subrange(0, k + 1).drop_last() =~= ls.subrange(0, k));
        lemma_count_easy_nonneg(output_tokens(ls[k]));
    }
}

/// Splits one record at its first `|`, or reports that it has none.
fn split_record(l: &Vec<char>) -> (r: Option<(Vec<char>, Vec<char>)>)
    ensures
        (r is Some) == line_split_ok(l@),
        (match r {
            Some(pair) => pair.0@ == spec_split(l@, '|')[0] && pair.1@ == spec_split(l@, '|')[1],
            None => true,
        }),
{
    let parts = split_char(l, '|');
    if parts.len() < 2 {
        return None;
    }
    let mut it = parts;
    let second = it.remove(1);
    let first = it.remove(0);
    Some((first, second))
}

/// Tallies output tokens whose length identifies a digit, or reports a
/// record without an output part or a tally beyond the result type.
pub fn try_part1(input: &String) -> (r: Option<i64>)
    ensures
        (r is Some) == part1_ok(input@),
        (match r {
            Some(v) => v == part1_answer(input@),
            None => true,
        }),
{
    let cs = chars_of(input.as_str());
    let tr = trim_chars(&cs);
    let ls = lines_of(&tr);
    let ghost recs = records_of(input@);
    proof {
        assert(views_of(ls@) =~= recs);
    }
    let n = ls.len();
    let mut count: u64 = 0;
    let mut i: usize = 0;
    while i < n
        invariant
            i <= n,
            n == ls@.len(),
            recs == records_of(input@),
            views_of(ls@) == recs,
            forall|j: int| 0 <= j < i ==> line_split_ok(#[trigger] recs[j]),
            count == count_lines(recs.subrange(0, i as int)),
            count <= i64::MAX,
        decreases n - i,
    {
        proof {
            assert(recs.subrange(0, i + 1 as int).drop_last() =~= recs.subrange(0, i as int));
            assert(recs.subrange(0, i + 1 as int).last() == recs[i as int]);
        }
        let pair = match split_record(&ls[i]) {
            None => {
                proof {
                    assert(!line_split_ok(recs[i as int]));
                }
                return None;
            },
            Some(p) => p,
        };
        let outs = tokens_of(&pair.1);
        let ghost outviews = output_tokens(recs[i as int]);
        proof {
            assert(views_of(outs@) == outviews);
        }
        let m = outs.len();
        let mut cnt: u64 = 0;
        let mut j: usize = 0;
        while j < m
            invariant
                j <= m,
                m == outs@.len(),
                views_of(outs@) == outviews,
                cnt == count_easy(outviews.subrange(0, j as int)),
                cnt <= j,
            decreases m - j,
        {
            proof {
                assert(outviews.subrange(0, j + 1 as int).drop_last() =~= outviews.subrange(
                    0,
                    j as int,
                ));
                assert(outviews.subrange(0, j + 1 as int).last() == outviews[j as int]);
            }
            let tl = outs[j].len();
            if tl == 2 || tl == 3 || tl == 4 || tl == 7 {
                cnt = cnt + 1;
            }
            j += 1;
        }
        proof {
            assert(outviews.subrange(0, m as int) =~= outviews);
        }
        if count as u128 + cnt as u128 > i64::MAX as u128 {
            proof {
                lemma_count_lines_prefix(recs, i + 1 as int);
            }
            return None;
        }
        count = count + cnt;
        i += 1;
    }
    proof {
        assert(recs.subrange(0, n as int) =~= recs);
    }
    Some(count as i64)
}

/// Whether the character `c` occurs in the token `t`.
pub open spec fn has_char(t: Seq<char>, c: char) -> bool {
    exists|i: int| 0 <= i < t.len() && t[i] == c
}

/// Whether every character of `u` occurs in `t`.
pub open spec fn covers(t: Seq<char>, u: Seq<char>) -> bool {
    forall|i: int| 0 <= i < u.len() ==> has_char(t, #[trigger] u[i])
}

/// How many positions of `u` hold a character that occurs in `t`.
pub open spec fn overlap_count(t: Seq<char>, u: Seq<char>) -> int
    decreases u.len(),
{
    if u.len() == 0 {
        0
    } else {
        overlap_count(t, u.drop_last()) + if has_char(t, u.last()) {
            1int
        } else {
            0int
        }
    }
}

/// The digit spelled by an output token, told apart by its length and,
/// for lengths five and six, by its overlap with the record's own
/// patterns for 1 and 4.
pub open spec fn classify(t: Seq<char>, one: Seq<char>, four: Seq<char>) -> int {
    if t.len() == 2 {
        1
    } else if t.len() == 3 {
        7
    } else if t.len() == 4 {
        4
    } else if t.len() == 7 {
        8
    } else if t.len() == 5 {
        if covers(t, one) {
            3
        } else if overlap_count(t, four) == 3 {
            5
        } else {
            2
        }
    } else {
        if !covers(t, one) {
            6
        } else if covers(t, four) {
            9
        } else {
            0
        }
    }
}

/// The first token of `ts` with length `len`, if any.
pub open spec fn first_with_len(ts: Seq<Seq<char>>, len: int) -> Option<Seq<char>>
    decreases ts.len(),
{
    if ts.len() == 0 {
        Option::None
    } else if ts.first().len() == len {
        Option::Some(ts.first())
    } else {
        first_with_len(ts.drop_first(), len)
    }
}

/// Whether one record can be decoded: it has an output part, its
/// patterns include a 1 and a 4, and every output token has a decodable
/// length.
pub open spec fn line_decodable(l: Seq<char>) -> bool {
    &&& line_split_ok(l)
    &&& first_with_len(pattern_tokens(l), 2) is Some
    &&& first_with_len(pattern_tokens(l), 4) is Some
    &&& (forall|i: int|
        0 <= i < output_tokens(l).len() ==> {
            let n = (#[trigger] output_tokens(l)[i]).len();
            2 <= n <= 7
        })
}

/// The decimal number spelled by a record's decoded output digits.
pub open spec fn digits_value(ts: Seq<Seq<char>>, one: Seq<char>, four: Seq<char>) -> int
    decreases ts.len(),
{
    if ts.len() == 0 {
        0
    } else {
        digits_value(ts.drop_last(), one, four) * 10 + classify(ts.last(), one, four)
    }
}

/// The decoded value of one record.
pub open spec fn line_value(l: Seq<char>) -> int {
    digits_value(
        output_tokens(l),
        first_with_len(pattern_tokens(l), 2)->Some_0,
        first_with_len(pattern_tokens(l), 4)->Some_0,
    )
}

/// The grand total of the decoded record values.
pub open spec fn total_value(ls: Seq<Seq<char>>) -> int
    decreases ls.len(),
{
    if ls.len() == 0 {
        0
    } else {
        total_value(ls.drop_last()) + line_value(ls.last())
    }
}

pub open spec fn part2_ok(s: Seq<char>) -> bool {
    &&& (forall|i: int| 0 <= i < records_of(s).len() ==> line_decodable(#[trigger] records_of(s)[i]))
    &&& total_value(records_of(s)) <= i64::MAX
}

pub open spec fn part2_answer(s: Seq<char>) -> int {
    total_value(records_of(s))
}

/// Every classified digit lies between 0 and 9.
pub proof fn lemma_classify_range(t: Seq<char>, one: Seq<char>, four: Seq<char>)
    ensures
        0 <= classify(t, one, four) <= 9,
{
}

pub proof fn lemma_digits_value_nonneg(ts: Seq<Seq<char>>, one: Seq<char>, four: Seq<char>)
    ensures
        digits_value(ts, one, four) >= 0,
    decreases ts.len(),
{
    if ts.len() > 0 {
        lemma_digits_value_nonneg(ts.drop_last(), one, four);
        lemma_classify_range(ts.last(), one, four);
    }
}

/// A record value never falls when more output digits are appended.
pub proof fn lemma_digits_value_prefix(ts: Seq<Seq<char>>, one: Seq<char>, four: Seq<char>, k: int)
    requires
        0 <= k <= ts.len(),
    ensures
        digits_value(ts.subrange(0, k), one, four) <= digits_value(ts, one, four),
    decreases ts.len() - k,
{
    if k == ts.len() {
        assert(ts.subrange(0, k) =~= ts);
    } else {
        lemma_digits_value_prefix(ts, one, four, k + 1);
        let p = ts.subrange(0, k);
        let q = ts.subrange(0, k + 1);
        assert(q.drop_last() =~= p);
        lemma_digits_value_nonneg(p, one, four);
        lemma_classify_range(q.last(), one, four);
        assert(digits_value(p, one, four) * 10 >= digits_value(p, one, four)) by (nonlinear_arith)
            requires
                digits_value(p, one, four) >= 0,
        ;
    }
}

pub proof fn lemma_total_value_prefix(ls: Seq<Seq<char>>, k: int)
    requires
        0 <= k <= ls.len(),
        forall|i: int| 0 <= i < ls.len() ==> line_decodable(#[trigger] ls[i]),
    ensures
        total_value(ls.subrange(0, k)) <= total_value(ls),
    decreases ls.len() - k,
{
    if k == ls.len() {
        assert(ls.subrange(0, k) =~= ls);
    } else {
        lemma_total_value_prefix(ls, k + 1);
        assert(ls.subrange(0, k + 1).drop_last() =~= ls.subrange(0, k));
        lemma_digits_value_nonneg(
            output_tokens(ls[k]),
            first_with_len(pattern_tokens(ls[k]), 2)->Some_0,
            first_with_len(pattern_tokens(ls[k]), 4)->Some_0,
        );
    }
}

/// Whether `c` occurs in the token `t`.
fn has_char_exec(t: &Vec<char>, c: char) -> (b: bool)
    ensures
        b == has_char(t@, c),
{
    let n = t.len();
    let mut i: usize = 0;
    while i < n
        invariant
            i <= n,
            n == t@.len(),
            forall|j: int| 0 <= j < i ==> t@[j] != c,
        decreases n - i,
    {
        if t[i] == c {
            return true;
        }
        i += 1;
    }
    false
}

/// Whether every character of `u` occurs in `t`.
fn covers_exec(t: &Vec<char>, u: &Vec<char>) -> (b: bool)
    ensures
        b == covers(t@, u@),
{
    let n = u.len();
    let mut i: usize = 0;
    while i < n
        invariant
            i <= n,
            n == u@.len(),
            forall|j: int| 0 <= j < i ==> has_char(t@, #[trigger] u@[j]),
        decreases n - i,
    {
        if !has_char_exec(t, u[i]) {
            return false;
        }
        i += 1;
    }
    true
}

/// How many positions of `u` hold a character occurring in `t`.
fn overlap_exec(t: &Vec<char>, u: &Vec<char>) -> (r: u64)
    ensures
        r == overlap_count(t@, u@),
{
    let n = u.len();
    let mut count: u64 = 0;
    let mut i: usize = 0;
    while i < n
        invariant
            i <= n,
            n == u@.len(),
            count == overlap_count(t@, u@.subrange(0, i as int)),
            count <= i,
        decreases n - i,
    {
        proof {
            assert(u@.subrange(0, i + 1 as int).drop_last() =~= u@.subrange(0, i as int));
            assert(u@.subrange(0, i + 1 as int).last() == u@[i as int]);
        }
        if has_char_exec(t, u[i]) {
            count = count + 1;
        }
        i += 1;
    }
    proof {
        assert(u@.subrange(0, n as int) =~= u@);
    }
    count
}

/// The digit spelled by one output token.
fn classify_exec(t: &Vec<char>, one: &Vec<char>, four: &Vec<char>) -> (d: u64)
    ensures
        d == classify(t@, one@, four@),
{
    let n = t.len();
    if n == 2 {
        1
    } else if n == 3 {
        7
    } else if n == 4 {
        4
    } else if n == 7 {
        8
    } else if n == 5 {
        if covers_exec(t, one) {
            3
        } else if overlap_exec(t, four) == 3 {
            5
        } else {
            2
        }
    } else {
        if !covers_exec(t, one) {
            6
        } else if covers_exec(t, four) {
            9
        } else {
            0
        }
    }
}

/// The first token with the given length, if any.
fn find_with_len(ts: &Vec<Vec<char>>, len: usize) -> (r: Option<Vec<char>>)
    ensures
        (r is Some) == (first_with_len(views_of(ts@), len as int) is Some),
        (match r {
            Some(t) => Option::Some(t@) == first_with_len(views_of(ts@), len as int),
            None => true,
        }),
{
    let ghost all = views_of(ts@);
    let n = ts.len();
    proof {
        assert(all.subrange(0, all.len() as int) =~= all);
    }
    let mut i: usize = 0;
    while i < n
        invariant
            i <= n,
            n == ts@.len(),
            all == views_of(ts@),
            first_with_len(all, len as int) == first_with_len(
                all.subrange(i as int, all.len() as int),
                len as int,
            ),
        decreases n - i,
    {
        proof {
            let sfx = all.subrange(i as int, all.len() as int);
            assert(sfx.first() == all[i as int]);
            assert(sfx.drop_first() =~= all.subrange(i + 1 as int, all.len() as int));
        }
        if ts[i].len() == len {
            let t = subvec(&ts[i], 0, ts[i].len());
            proof {
                assert(t@ =~= all[i as int]);
            }
            return Some(t);
        }
        i += 1;
    }
    proof {
        assert(all.subrange(n as int, all.len() as int) =~= Seq::<Seq<char>>::empty());
    }
    None
}

/// Decodes every record and totals the spelled numbers, or reports an
/// undecodable record or a total beyond the result type.
pub fn try_part2(input: &String) -> (r: Option<i64>)
    ensures
        (r is Some) == part2_ok(input@),
        (match r {
            Some(v) => v == part2_answer(input@),
            None => true,
        }),
{
    let cs = chars_of(input.as_str());
    let tr = trim_chars(&cs);
    let ls = lines_of(&tr);
    let ghost recs = records_of(input@);
    proof {
        assert(views_of(ls@) =~= recs);
    }
    let n = ls.len();
    let mut total: u64 = 0;
    let mut i: usize = 0;
    while i < n
        invariant
            i <= n,
            n == ls@.len(),
            recs == records_of(input@),
            views_of(ls@) == recs,
            forall|j: int| 0 <= j < i ==> line_decodable(#[trigger] recs[j]),
            total == total_value(recs.subrange(0, i as int)),
            total <= i64::MAX,
        decreases n - i,
    {
        proof {
            assert(recs.subrange(0, i + 1 as int).drop_last() =~= recs.subrange(0, i as int));
            assert(recs.subrange(0, i + 1 as int).last() == recs[i as int]);
        }
        let pair = match split_record(&ls[i]) {
            None => {
                proof {
                    assert(!line_decodable(recs[i as int]));
                }
                return None;
            },
            Some(p) => p,
        };
        let pats = tokens_of(&pair.0);
        let outs = tokens_of(&pair.1);
        let ghost outviews = output_tokens(recs[i as int]);
        proof {
            assert(views_of(outs@) == outviews);
            assert(views_of(pats@) == pattern_tokens(recs[i as int]));
        }
        let one = match find_with_len(&pats, 2) {
            None => {
                proof {
                    assert(!line_decodable(recs[i as int]));
                }
                return None;
            },
            Some(t) => t,
        };
        let four = match find_with_len(&pats, 4) {
            None => {
                proof {
                    assert(!line_decodable(recs[i as int]));
                }
                return None;
            },
            Some(t) => t,
        };
        let m = outs.len();
        let mut v: u64 = 0;
        let mut j: usize = 0;
        while j < m
            invariant
                j <= m,
                m == outs@.len(),
                views_of(outs@) == outviews,
                one@ == first_with_len(pattern_tokens(recs[i as int]), 2)->Some_0,
                four@ == first_with_len(pattern_tokens(recs[i as int]), 4)->Some_0,
                recs == records_of(input@),
                views_of(ls@) == recs,
                i < n == ls@.len(),
                outviews == output_tokens(recs[i as int]),
                total == total_value(recs.subrange(0, i as int)),
                total <= i64::MAX,
                forall|k: int|
                    0 <= k < j ==> {
                        let len = (#[trigger] outviews[k]).len();
                        2 <= len <= 7
                    },
                v == digits_value(outviews.subrange(0, j as int), one@, four@),
                v <= i64::MAX,
            decreases m - j,
        {
            proof {
                assert(outviews.subrange(0, j + 1 as int).drop_last() =~= outviews.subrange(
                    0,
                    j as int,
                ));
                assert(outviews.subrange(0, j + 1 as int).last() == outviews[j as int]);
            }
            let tl = outs[j].len();
            if tl < 2 || tl > 7 {
                proof {
                    assert(!line_decodable(recs[i as int]));
                }
                return None;
            }
            let d = classify_exec(&outs[j], &one, &four);
            proof {
                lemma_classify_range(outviews[j as int], one@, four@);
            }
            let nv: u128 = v as u128 * 10 + d as u128;
            if nv > i64::MAX as u128 {
                proof {
                    let q = outviews.subrange(0, j + 1 as int);
                    assert(digits_value(q, one@, four@) == nv);
                    if part2_ok(input@) {
                        lemma_digits_value_prefix(outviews, one@, four@, j + 1 as int);
                        assert(outviews.subrange(0, outviews.len() as int) =~= outviews);
                        assert(line_value(recs[i as int]) > i64::MAX);
                        lemma_total_value_prefix(recs, i + 1 as int);
                        assert(recs.subrange(0, i + 1 as int).drop_last() =~= recs.subrange(
                            0,
                            i as int,
                        ));
                        assert(recs.subrange(0, i + 1 as int).last() == recs[i as int]);
                        assert(total_value(recs.subrange(0, i + 1 as int)) == total_value(
                            recs.subrange(0, i as int),
                        ) + line_value(recs[i as int]));
                        assert(total_value(recs.subrange(0, i as int)) == total);
                        assert(total_value(recs.subrange(0, i + 1 as int)) > i64::MAX);
                    }
                }
                return None;
            }
            v = nv as u64;
            j += 1;
        }
        proof {
            assert(outviews.subrange(0, m as int) =~= outviews);
            assert(v == line_value(recs[i as int]));
        }
        if total as u128 + v as u128 > i64::MAX as u128 {
            proof {
                if part2_ok(input@) {
                    lemma_total_value_prefix(recs, i + 1 as int);
                }
            }
            return None;
        }
        total = total + v;
        i += 1;
    }
    proof {
        assert(recs.subrange(0, n as int) =~= recs);
    }
    Some(total as i64)
}

/// Counts output tokens whose length alone identifies a digit.
pub fn solve_part1(input: &String, _input_mode: &InputMode) -> (r: i64)
    requires
        part1_ok(input@),
    ensures
        r == part1_answer(input@),
{
    match try_part1(input) {
        Some(v) => v,
        None => {
            proof {
                assert(false);
            }
            0
        },
    }
}

/// Decodes every record's output digits and totals the spelled numbers.
pub fn solve_part2(input: &String, _input_mode: &InputMode) -> (r: i64)
    requires
        part2_ok(input@),
    ensures
        r == part2_answer(input@),
{
    match try_part2(input) {
        Some(v) => v,
        None => {
            proof {
                assert(false);
            }
            0
        },
    }
}

} // verus!
