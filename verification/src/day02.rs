//! Two-dimensional position integrator.
//!
//! Each input record is a direction keyword followed by a magnitude.
//! Part one moves a position directly: `forward` adds to the horizontal
//! coordinate, `up` and `down` adjust the depth.  Part two routes `up`
//! and `down` through an aim accumulator and `forward` moves by the
//! magnitude horizontally and by magnitude times aim vertically.  Both
//! answers are the product of the two final coordinates.

use vstd::prelude::*;
use crate::InputMode;
use crate::text::{
    chars_eq_str, chars_of, int_chars_val, lines_of, parse_i64, parses_to_i64, spec_lines, subvec,
    views_of,
};

verus! {

/// The length of the leading run of non-space characters.
pub open spec fn keyword_len(l: Seq<char>) -> int
    decreases l.len(),
{
    if l.len() == 0 {
        0
    } else if l.first() == ' ' {
        0
    } else {
        1 + keyword_len(l.drop_first())
    }
}

/// The direction keyword of a record: everything before the first space.
pub open spec fn line_keyword(l: Seq<char>) -> Seq<char> {
    l.subrange(0, keyword_len(l))
}

/// `s` with every space removed.
pub open spec fn remove_spaces(s: Seq<char>) -> Seq<char>
    decreases s.len(),
{
    if s.len() == 0 {
        s
    } else {
        let rest = remove_spaces(s.drop_last());
        if s.last() == ' ' {
            rest
        } else {
            rest.push(s.last())
        }
    }
}

/// The magnitude digits of a record: everything after the keyword, with
/// spaces removed.
pub open spec fn line_digits(l: Seq<char>) -> Seq<char> {
    remove_spaces(l.skip(keyword_len(l)))
}

/// Whether a record is a recognized instruction: a keyword, a space, and
/// an integer magnitude.
pub open spec fn line_ok(l: Seq<char>) -> bool {
    &&& keyword_len(l) < l.len()
    &&& (line_keyword(l) == "forward"@ || line_keyword(l) == "up"@ || line_keyword(l) == "down"@)
    &&& parses_to_i64(line_digits(l))
}

/// A parsed instruction: a direction code (0 forward, 1 up, 2 down) and
/// a magnitude.
pub open spec fn cmd_of(l: Seq<char>) -> (int, int) {
    (
        if line_keyword(l) == "forward"@ {
            0int
        } else if line_keyword(l) == "up"@ {
            1int
        } else {
            2int
        },
        int_chars_val(line_digits(l)),
    )
}

pub open spec fn cmds_of(s: Seq<char>) -> Seq<(int, int)> {
    spec_lines(s).map_values(|l: Seq<char>| cmd_of(l))
}

pub open spec fn lines_ok(s: Seq<char>) -> bool {
    forall|i: int| 0 <= i < spec_lines(s).len() ==> line_ok(#[trigger] spec_lines(s)[i])
}

/// One step of the direct model.
pub open spec fn step1(st: (int, int), c: (int, int)) -> (int, int) {
    if c.0 == 0 {
        (st.0 + c.1, st.1)
    } else if c.0 == 1 {
        (st.0, st.1 - c.1)
    } else {
        (st.0, st.1 + c.1)
    }
}

/// The direct-model position after the first `n` instructions.
pub open spec fn state1_at(cs: Seq<(int, int)>, n: int) -> (int, int)
    decreases n,
{
    if n <= 0 {
        (0int, 0int)
    } else {
        step1(state1_at(cs, n - 1), cs[n - 1])
    }
}

/// One step of the aim-based model, over (horizontal, depth, aim).
pub open spec fn step2(st: (int, int, int), c: (int, int)) -> (int, int, int) {
    if c.0 == 0 {
        (st.0 + c.1, st.1 + c.1 * st.2, st.2)
    } else if c.0 == 1 {
        (st.0, st.1, st.2 - c.1)
    } else {
        (st.0, st.1, st.2 + c.1)
    }
}

/// The aim-model state after the first `n` instructions.
pub open spec fn state2_at(cs: Seq<(int, int)>, n: int) -> (int, int, int)
    decreases n,
{
    if n <= 0 {
        (0int, 0int, 0int)
    } else {
        step2(state2_at(cs, n - 1), cs[n - 1])
    }
}

pub open spec fn fits(x: int) -> bool {
    i64::MIN <= x <= i64::MAX
}

pub open spec fn part1_ok(s: Seq<char>) -> bool {
    &&& lines_ok(s)
    &&& (forall|n: int|
        0 <= n <= cmds_of(s).len() ==> fits((#[trigger] state1_at(cmds_of(s), n)).0) && fits(
            state1_at(cmds_of(s), n).1,
        ))
    &&& fits(part1_answer(s))
}

pub open spec fn part1_answer(s: Seq<char>) -> int {
    let fin = state1_at(cmds_of(s), cmds_of(s).len() as int);
    fin.0 * fin.1
}

pub open spec fn part2_ok(s: Seq<char>) -> bool {
    &&& lines_ok(s)
    &&& (forall|n: int|
        0 <= n <= cmds_of(s).len() ==> fits((#[trigger] state2_at(cmds_of(s), n)).0) && fits(
            state2_at(cmds_of(s), n).1,
        ) && fits(state2_at(cmds_of(s), n).2))
    &&& fits(part2_answer(s))
}

pub open spec fn part2_answer(s: Seq<char>) -> int {
    let fin = state2_at(cmds_of(s), cmds_of(s).len() as int);
    fin.0 * fin.1
}

/// The length of the leading run of non-space characters.
fn keyword_len_exec(l: &Vec<char>) -> (r: usize)
    ensures
        r == keyword_len(l@),
        r <= l@.len(),
{
    let n = l.len();
    let mut i: usize = 0;
    proof {
        assert(l@.skip(0) =~= l@);
    }
    while i < n
        invariant
            i <= n,
            n == l@.len(),
            keyword_len(l@) == i + keyword_len(l@.skip(i as int)),
        decreases n - i,
    {
        proof {
            let sfx = l@.skip(i as int);
            assert(sfx.first() == l@[i as int]);
            assert(sfx.drop_first() =~= l@.skip(i + 1 as int));
        }
        if l[i] == ' ' {
            return i;
        }
        i += 1;
    }
    proof {
        assert(l@.skip(n as int) =~= Seq::<char>::empty());
    }
    n
}

/// Everything after position `start`, with spaces removed.
fn strip_spaces(l: &Vec<char>, start: usize) -> (r: Vec<char>)
    requires
        start <= l@.len(),
    ensures
        r@ == remove_spaces(l@.skip(start as int)),
{
    let ghost t = l@.skip(start as int);
    let n = l.len();
    let mut r: Vec<char> = Vec::new();
    let mut i: usize = start;
    proof {
        assert(t.subrange(0, 0) =~= Seq::<char>::empty());
    }
    while i < n
        invariant
            start <= i <= n,
            n == l@.len(),
            t == l@.skip(start as int),
            r@ == remove_spaces(t.subrange(0, i - start)),
        decreases n - i,
    {
        let ghost k = i - start;
        proof {
            assert(t.subrange(0, k + 1).drop_last() =~= t.subrange(0, k));
            assert(t.subrange(0, k + 1).last() == l@[i as int]);
        }
        let c = l[i];
        if c != ' ' {
            r.push(c);
        }
        i += 1;
    }
    proof {
        assert(t.subrange(0, t.len() as int) =~= t);
    }
    r
}

/// Parses one record into a direction code and a magnitude.
fn parse_cmd(l: &Vec<char>) -> (r: Option<(u8, i64)>)
    ensures
        (r is Some) == line_ok(l@),
        (match r {
            Some(c) => c.0 as int == cmd_of(l@).0 && c.1 as int == cmd_of(l@).1,
            None => true,
        }),
{
    let kl = keyword_len_exec(l);
    if kl >= l.len() {
        return None;
    }
    let kw = subvec(l, 0, kl);
    proof {
        assert(kw@ =~= line_keyword(l@));
    }
    let code: u8 = if chars_eq_str(&kw, "forward") {
        0
    } else if chars_eq_str(&kw, "up") {
        1
    } else if chars_eq_str(&kw, "down") {
        2
    } else {
        return None;
    };
    let digits = strip_spaces(l, kl);
    match parse_i64(&digits) {
        None => None,
        Some(v) => Some((code, v)),
    }
}

/// Parses every record, or reports the first malformed one.
fn parse_cmds(input: &String) -> (r: Option<Vec<(u8, i64)>>)
    ensures
        (r is Some) == lines_ok(input@),
        (match r {
            Some(cs) => {
                &&& cs@.len() == cmds_of(input@).len()
                &&& (forall|i: int|
                    0 <= i < cs@.len() ==> (#[trigger] cs@[i]).0 as int == cmds_of(input@)[i].0
                        && cs@[i].1 as int == cmds_of(input@)[i].1)
            },
            None => true,
        }),
{
    let cs = chars_of(input.as_str());
    let ls = lines_of(&cs);
    let ghost lviews = spec_lines(input@);
    proof {
        assert(views_of(ls@) =~= lviews);
    }
    let n = ls.len();
    let mut out: Vec<(u8, i64)> = Vec::new();
    let mut i: usize = 0;
    while i < n
        invariant
            i <= n,
            n == ls@.len(),
            lviews == spec_lines(input@),
            views_of(ls@) == lviews,
            out@.len() == i,
            forall|j: int| 0 <= j < i ==> line_ok(#[trigger] lviews[j]),
            forall|j: int|
                0 <= j < i ==> (#[trigger] out@[j]).0 as int == cmd_of(lviews[j]).0
                    && out@[j].1 as int == cmd_of(lviews[j]).1,
        decreases n - i,
    {
        match parse_cmd(&ls[i]) {
            None => {
                proof {
                    assert(!line_ok(lviews[i as int]));
                }
                return None;
            },
            Some(c) => {
                out.push(c);
            },
        }
        i += 1;
    }
    proof {
        assert(cmds_of(input@).len() == lviews.len());
        assert(forall|j: int|
            0 <= j < lviews.len() ==> #[trigger] cmds_of(input@)[j] == cmd_of(lviews[j]));
    }
    Some(out)
}

/// Integrates the direct model, or reports a malformed record or a
/// coordinate beyond the result type.
pub fn try_part1(input: &String) -> (r: Option<i64>)
    ensures
        (r is Some) == part1_ok(input@),
        (match r {
            Some(v) => v == part1_answer(input@),
            None => true,
        }),
{
    let cs = match parse_cmds(input) {
        None => {
            return None;
        },
        Some(cs) => cs,
    };
    let ghost cmds = cmds_of(input@);
    let n = cs.len();
    let mut x: i128 = 0;
    let mut y: i128 = 0;
    let mut i: usize = 0;
    while i < n
        invariant
            i <= n,
            n == cs@.len(),
            n == cmds.len(),
            cmds == cmds_of(input@),
            forall|j: int|
                0 <= j < n ==> (#[trigger] cs@[j]).0 as int == cmds[j].0 && cs@[j].1 as int
                    == cmds[j].1,
            (x as int, y as int) == state1_at(cmds, i as int),
            fits(x as int),
            fits(y as int),
            forall|k: int|
                0 <= k <= i ==> fits((#[trigger] state1_at(cmds, k)).0) && fits(
                    state1_at(cmds, k).1,
                ),
        decreases n - i,
    {
        let c = cs[i];
        let v = c.1 as i128;
        let (nx, ny): (i128, i128) = if c.0 == 0 {
            (x + v, y)
        } else if c.0 == 1 {
            (x, y - v)
        } else {
            (x, y + v)
        };
        proof {
            assert((nx as int, ny as int) == state1_at(cmds, i + 1 as int));
        }
        if nx < i64::MIN as i128 || nx > i64::MAX as i128 || ny < i64::MIN as i128 || ny
            > i64::MAX as i128 {
            proof {
                assert(!fits(state1_at(cmds, i + 1 as int).0) || !fits(
                    state1_at(cmds, i + 1 as int).1,
                ));
            }
            return None;
        }
        x = nx;
        y = ny;
        i += 1;
    }
    proof {
        assert(-0x4000_0000_0000_0000_0000_0000_0000_0000 <= x as int * y as int
            <= 0x4000_0000_0000_0000_0000_0000_0000_0000) by (nonlinear_arith)
            requires
                -0x8000_0000_0000_0000 <= x as int <= 0x7fff_ffff_ffff_ffff,
                -0x8000_0000_0000_0000 <= y as int <= 0x7fff_ffff_ffff_ffff,
        ;
    }
    let p: i128 = x * y;
    proof {
        assert(p == part1_answer(input@));
    }
    if p < i64::MIN as i128 || p > i64::MAX as i128 {
        return None;
    }
    Some(p as i64)
}

/// Integrates the aim-based model, or reports a malformed record or a
/// coordinate beyond the result type.
pub fn try_part2(input: &String) -> (r: Option<i64>)
    ensures
        (r is Some) == part2_ok(input@),
        (match r {
            Some(v) => v == part2_answer(input@),
            None => true,
        }),
{
    let cs = match parse_cmds(input) {
        None => {
            return None;
        },
        Some(cs) => cs,
    };
    let ghost cmds = cmds_of(input@);
    let n = cs.len();
    let mut x: i128 = 0;
    let mut y: i128 = 0;
    let mut aim: i128 = 0;
    let mut i: usize = 0;
    while i < n
        invariant
            i <= n,
            n == cs@.len(),
            n == cmds.len(),
            cmds == cmds_of(input@),
            forall|j: int|
                0 <= j < n ==> (#[trigger] cs@[j]).0 as int == cmds[j].0 && cs@[j].1 as int
                    == cmds[j].1,
            (x as int, y as int, aim as int) == state2_at(cmds, i as int),
            fits(x as int),
            fits(y as int),
            fits(aim as int),
            forall|k: int|
                0 <= k <= i ==> fits((#[trigger] state2_at(cmds, k)).0) && fits(
                    state2_at(cmds, k).1,
                ) && fits(state2_at(cmds, k).2),
        decreases n - i,
    {
        let c = cs[i];
        let v = c.1 as i128;
        proof {
            assert(-0x4000_0000_0000_0000_0000_0000_0000_0000 <= v as int * aim as int
                <= 0x4000_0000_0000_0000_0000_0000_0000_0000) by (nonlinear_arith)
                requires
                    -0x8000_0000_0000_0000 <= v as int <= 0x7fff_ffff_ffff_ffff,
                    -0x8000_0000_0000_0000 <= aim as int <= 0x7fff_ffff_ffff_ffff,
            ;
        }
        let (nx, ny, naim): (i128, i128, i128) = if c.0 == 0 {
            (x + v, y + v * aim, aim)
        } else if c.0 == 1 {
            (x, y, aim - v)
        } else {
            (x, y, aim + v)
        };
        proof {
            assert((nx as int, ny as int, naim as int) == state2_at(cmds, i + 1 as int));
        }
        if nx < i64::MIN as i128 || nx > i64::MAX as i128 || ny < i64::MIN as i128 || ny
            > i64::MAX as i128 || naim < i64::MIN as i128 || naim > i64::MAX as i128 {
            proof {
                let st = state2_at(cmds, i + 1 as int);
                assert(!fits(st.0) || !fits(st.1) || !fits(st.2));
            }
            return None;
        }
        x = nx;
        y = ny;
        aim = naim;
        i += 1;
    }
    proof {
        assert(-0x4000_0000_0000_0000_0000_0000_0000_0000 <= x as int * y as int
            <= 0x4000_0000_0000_0000_0000_0000_0000_0000) by (nonlinear_arith)
            requires
                -0x8000_0000_0000_0000 <= x as int <= 0x7fff_ffff_ffff_ffff,
                -0x8000_0000_0000_0000 <= y as int <= 0x7fff_ffff_ffff_ffff,
        ;
    }
    let p: i128 = x * y;
    proof {
        assert(p == part2_answer(input@));
    }
    if p < i64::MIN as i128 || p > i64::MAX as i128 {
        return None;
    }
    Some(p as i64)
}

/// The product of the final coordinates under the direct model.
pub fn solve_part1(input: &String, _input_mode: &InputMode) -> (r: i64)
    requires
        part1_ok(input@),
    ensures
        r == part1_answer(input@),
{
    match try_part1(input) {
        Some(v) => v,
        None => {
            proof {
                assert(false);
            }
            0
        },
    }
}

/// The product of the final coordinates under the aim-based model.
pub fn solve_part2(input: &String, _input_mode: &InputMode) -> (r: i64)
    requires
        part2_ok(input@),
    ensures
        r == part2_answer(input@),
{
    match try_part2(input) {
        Some(v) => v,
        None => {
            proof {
                assert(false);
            }
            0
        },
    }
}

} // verus!
