//! Line-segment density map.
//!
//! Each input record holds two coordinate pairs, a segment on a square
//! grid.  Every segment is rasterized cell by cell — horizontal and
//! vertical segments always, 45-degree diagonals only when the caller
//! asks for them — and each visited cell's counter grows by one.  The
//! answer is how many cells at least two segments pass through.  A
//! segment that is neither axis-aligned nor a 45-degree diagonal is a
//! fatal input-format violation.
//!
//! The counter grid is held in an `ndarray` array, sized to the largest
//! coordinate seen.

use vstd::prelude::*;
use crate::InputMode;
use crate::grid::{grid_get, grid_of, grid_set, grid_zeros, rect, Grid};
use crate::text::{
    chars_eq_str, chars_of, int_chars_val, lines_of, parse_i64, parses_to_i64, spec_lines, spec_split, split_char, subvec, views_of,
};

verus! {

/// Whether a token spells a non-negative coordinate pair `x,y`.
pub open spec fn pair_ok(p: Seq<char>) -> bool {
    let cs = spec_split(p, ',');
    &&& cs.len() == 2
    &&& parses_to_i64(cs[0])
    &&& parses_to_i64(cs[1])
    &&& int_chars_val(cs[0]) >= 0
    &&& int_chars_val(cs[1]) >= 0
}

pub open spec fn pair_of(p: Seq<char>) -> (int, int) {
    (int_chars_val(spec_split(p, ',')[0]), int_chars_val(spec_split(p, ',')[1]))
}

/// Whether a record spells a segment: a pair, an arrow, and a pair.
pub open spec fn seg_line_ok(l: Seq<char>) -> bool {
    let ts = spec_split(l, ' ');
    ts.len() == 3 && ts[1] == "->"@ && pair_ok(ts[0]) && pair_ok(ts[2])
}

/// The segment spelled by a record: (x1, y1, x2, y2).
pub open spec fn seg_of(l: Seq<char>) -> (int, int, int, int) {
    let ts = spec_split(l, ' ');
    (pair_of(ts[0]).0, pair_of(ts[0]).1, pair_of(ts[2]).0, pair_of(ts[2]).1)
}

pub open spec fn segs_of(s: Seq<char>) -> Seq<(int, int, int, int)> {
    spec_lines(s).map_values(|l: Seq<char>| seg_of(l))
}

pub open spec fn abs(x: int) -> int {
    if x < 0 {
        -x
    } else {
        x
    }
}

pub open spec fn sgn(x: int) -> int {
    if x > 0 {
        1
    } else if x < 0 {
        -1
    } else {
        0
    }
}

/// Whether a segment is horizontal, vertical, or a 45-degree diagonal.
pub open spec fn valid_seg(g: (int, int, int, int)) -> bool {
    g.1 == g.3 || g.0 == g.2 || abs(g.0 - g.2) == abs(g.1 - g.3)
}

/// Whether a segment is rasterized at all: diagonals only on request.
pub open spec fn seg_counted(g: (int, int, int, int), incl_diag: bool) -> bool {
    g.1 == g.3 || g.0 == g.2 || incl_diag
}

/// How many cells a rasterized segment visits.
pub open spec fn seg_npoints(g: (int, int, int, int)) -> int {
    if abs(g.0 - g.2) >= abs(g.1 - g.3) {
        abs(g.0 - g.2) + 1
    } else {
        abs(g.1 - g.3) + 1
    }
}

/// The `k`-th cell a segment visits, walking from its first endpoint.
pub open spec fn seg_point(g: (int, int, int, int), k: int) -> (int, int) {
    (g.0 + k * sgn(g.2 - g.0), g.1 + k * sgn(g.3 - g.1))
}

/// How many of the first `k` cells of a segment's walk land on (x, y).
pub open spec fn pt_hits_upto(g: (int, int, int, int), k: int, x: int, y: int) -> int
    decreases k,
{
    if k <= 0 {
        0
    } else {
        pt_hits_upto(g, k - 1, x, y) + if seg_point(g, k - 1) == (x, y) {
            1int
        } else {
            0int
        }
    }
}

/// How often one segment passes through (x, y).
pub open spec fn pt_hits(g: (int, int, int, int), incl_diag: bool, x: int, y: int) -> int {
    if seg_counted(g, incl_diag) {
        pt_hits_upto(g, seg_npoints(g), x, y)
    } else {
        0
    }
}

/// How often the first `i` segments pass through (x, y) in total.
pub open spec fn cell_total(
    segs: Seq<(int, int, int, int)>,
    i: int,
    incl_diag: bool,
    x: int,
    y: int,
) -> int
    decreases i,
{
    if i <= 0 {
        0
    } else {
        cell_total(segs, i - 1, incl_diag, x, y) + pt_hits(segs[i - 1], incl_diag, x, y)
    }
}

/// The largest coordinate among the first `i` segments.
pub open spec fn max_coord(segs: Seq<(int, int, int, int)>, i: int) -> int
    decreases i,
{
    if i <= 0 {
        0
    } else {
        let m = max_coord(segs, i - 1);
        let g = segs[i - 1];
        let a = if g.0 >= g.1 {
            g.0
        } else {
            g.1
        };
        let b = if g.2 >= g.3 {
            g.2
        } else {
            g.3
        };
        let c = if a >= b {
            a
        } else {
            b
        };
        if c >= m {
            c
        } else {
            m
        }
    }
}

/// How many of the first `x` cells of row `y` at least two segments
/// pass through.
pub open spec fn row_cnt(
    segs: Seq<(int, int, int, int)>,
    incl_diag: bool,
    y: int,
    x: int,
) -> int
    decreases x,
{
    if x <= 0 {
        0
    } else {
        row_cnt(segs, incl_diag, y, x - 1) + if cell_total(segs, segs.len() as int, incl_diag, x - 1, y)
            >= 2 {
            1int
        } else {
            0int
        }
    }
}

/// How many cells of the first `y` rows at least two segments pass
/// through, rows being `m + 1` cells wide.
pub open spec fn tot_cnt(
    segs: Seq<(int, int, int, int)>,
    incl_diag: bool,
    m: int,
    y: int,
) -> int
    decreases y,
{
    if y <= 0 {
        0
    } else {
        tot_cnt(segs, incl_diag, m, y - 1) + row_cnt(segs, incl_diag, y - 1, m + 1)
    }
}

/// Whether the input is well formed for the given diagonal setting: the
/// grammar holds, every segment is valid, the grid fits the allocator
/// bound, and no cell counter outgrows the cell type.
pub open spec fn day05_ok(s: Seq<char>, incl_diag: bool) -> bool {
    let segs = segs_of(s);
    let m = max_coord(segs, segs.len() as int);
    &&& (forall|i: int| 0 <= i < spec_lines(s).len() ==> seg_line_ok(#[trigger] spec_lines(s)[i]))
    &&& (forall|i: int| 0 <= i < segs.len() ==> valid_seg(#[trigger] segs[i]))
    &&& (m + 1) * (m + 1) <= 0x1000_0000
    &&& (forall|x: int, y: int|
        0 <= x <= m && 0 <= y <= m ==> cell_total(segs, segs.len() as int, incl_diag, x, y)
            <= i64::MAX)
}

pub open spec fn day05_answer(s: Seq<char>, incl_diag: bool) -> int {
    let segs = segs_of(s);
    let m = max_coord(segs, segs.len() as int);
    tot_cnt(segs, incl_diag, m, m + 1)
}

pub proof fn lemma_hits_upto_mono(g: (int, int, int, int), k1: int, k2: int, x: int, y: int)
    requires
        k1 <= k2,
    ensures
        pt_hits_upto(g, k1, x, y) <= pt_hits_upto(g, k2, x, y),
    decreases k2 - k1,
{
    if k1 < k2 {
        lemma_hits_upto_mono(g, k1, k2 - 1, x, y);
    }
}

pub proof fn lemma_hits_nonneg(g: (int, int, int, int), k: int, x: int, y: int)
    ensures
        pt_hits_upto(g, k, x, y) >= 0,
    decreases k,
{
    if k > 0 {
        lemma_hits_nonneg(g, k - 1, x, y);
    }
}

pub proof fn lemma_cell_mono(
    segs: Seq<(int, int, int, int)>,
    i1: int,
    i2: int,
    incl_diag: bool,
    x: int,
    y: int,
)
    requires
        i1 <= i2,
    ensures
        cell_total(segs, i1, incl_diag, x, y) <= cell_total(segs, i2, incl_diag, x, y),
    decreases i2 - i1,
{
    if i1 < i2 {
        lemma_cell_mono(segs, i1, i2 - 1, incl_diag, x, y);
        lemma_hits_nonneg(segs[i2 - 1], seg_npoints(segs[i2 - 1]), x, y);
    }
}




proof fn lemma_mul_sgn(k: int, v: int)
    requires
        -1 <= v <= 1,
    ensures
        v == 1 ==> k * v == k,
        v == -1 ==> k * v == -k,
        v == 0 ==> k * v == 0,
{
    if v == 1 {
        assert(k * v == k) by (nonlinear_arith)
            requires
                v == 1,
        ;
    } else if v == -1 {
        assert(k * v == -k) by (nonlinear_arith)
            requires
                v == -1,
        ;
    } else if v == 0 {
        assert(k * v == 0) by (nonlinear_arith)
            requires
                v == 0,
        ;
    }
}

pub proof fn lemma_max_coord_ge(segs: Seq<(int, int, int, int)>, i: int, j: int)
    requires
        0 <= j < i,
    ensures
        max_coord(segs, i) >= segs[j].0,
        max_coord(segs, i) >= segs[j].1,
        max_coord(segs, i) >= segs[j].2,
        max_coord(segs, i) >= segs[j].3,
        max_coord(segs, i) >= 0,
    decreases i,
{
    if j < i - 1 {
        lemma_max_coord_ge(segs, i - 1, j);
    } else if i - 1 > 0 {
        lemma_max_coord_nonneg(segs, i - 1);
    }
}

pub proof fn lemma_max_coord_nonneg(segs: Seq<(int, int, int, int)>, i: int)
    ensures
        max_coord(segs, i) >= 0,
    decreases i,
{
    if i > 0 {
        lemma_max_coord_nonneg(segs, i - 1);
    }
}

pub proof fn lemma_row_cnt_bound(segs: Seq<(int, int, int, int)>, incl_diag: bool, y: int, x: int)
    requires
        x >= 0,
    ensures
        0 <= row_cnt(segs, incl_diag, y, x) <= x,
    decreases x,
{
    if x > 0 {
        lemma_row_cnt_bound(segs, incl_diag, y, x - 1);
    }
}

pub proof fn lemma_tot_cnt_bound(segs: Seq<(int, int, int, int)>, incl_diag: bool, m: int, y: int)
    requires
        y >= 0,
        m >= 0,
    ensures
        0 <= tot_cnt(segs, incl_diag, m, y) <= y * (m + 1),
    decreases y,
{
    if y > 0 {
        lemma_tot_cnt_bound(segs, incl_diag, m, y - 1);
        lemma_row_cnt_bound(segs, incl_diag, y - 1, m + 1);
        assert(y * (m + 1) == (y - 1) * (m + 1) + (m + 1)) by (nonlinear_arith);
    }
}

/// Parses one coordinate pair.
fn parse_pair(p: &Vec<char>) -> (r: Option<(i64, i64)>)
    ensures
        (r is Some) == pair_ok(p@),
        (match r {
            Some(c) => c.0 as int == pair_of(p@).0 && c.1 as int == pair_of(p@).1 && c.0 >= 0
                && c.1 >= 0,
            None => true,
        }),
{
    let cs = split_char(p, ',');
    if cs.len() != 2 {
        return None;
    }
    let a = match parse_i64(&cs[0]) {
        None => {
            return None;
        },
        Some(a) => a,
    };
    let b = match parse_i64(&cs[1]) {
        None => {
            return None;
        },
        Some(b) => b,
    };
    if a < 0 || b < 0 {
        return None;
    }
    Some((a, b))
}

/// Parses one segment record.
fn parse_seg(l: &Vec<char>) -> (r: Option<(i64, i64, i64, i64)>)
    ensures
        (r is Some) == seg_line_ok(l@),
        (match r {
            Some(g) => g.0 as int == seg_of(l@).0 && g.1 as int == seg_of(l@).1 && g.2 as int
                == seg_of(l@).2 && g.3 as int == seg_of(l@).3 && g.0 >= 0 && g.1 >= 0 && g.2 >= 0
                && g.3 >= 0,
            None => true,
        }),
{
    let ts = split_char(l, ' ');
    if ts.len() != 3 {
        return None;
    }
    if !chars_eq_str(&ts[1], "->") {
        return None;
    }
    let p1 = match parse_pair(&ts[0]) {
        None => {
            return None;
        },
        Some(p) => p,
    };
    let p2 = match parse_pair(&ts[2]) {
        None => {
            return None;
        },
        Some(p) => p,
    };
    Some((p1.0, p1.1, p2.0, p2.1))
}

/// Parses every record into a segment.
fn parse_segs(input: &String) -> (r: Option<Vec<(i64, i64, i64, i64)>>)
    ensures
        (r is Some) == (forall|i: int|
            0 <= i < spec_lines(input@).len() ==> seg_line_ok(#[trigger] spec_lines(input@)[i])),
        (match r {
            Some(gs) => {
                &&& gs@.len() == segs_of(input@).len()
                &&& (forall|i: int|
                    0 <= i < gs@.len() ==> {
                        let g = #[trigger] gs@[i];
                        let sg = segs_of(input@)[i];
                        g.0 as int == sg.0 && g.1 as int == sg.1 && g.2 as int == sg.2
                            && g.3 as int == sg.3 && g.0 >= 0 && g.1 >= 0 && g.2 >= 0 && g.3
                            >= 0
                    })
            },
            None => true,
        }),
{
    let cs = chars_of(input.as_str());
    let ls = lines_of(&cs);
    let ghost lviews = spec_lines(input@);
    proof {
        assert(views_of(ls@) =~= lviews);
    }
    let n = ls.len();
    let mut out: Vec<(i64, i64, i64, i64)> = Vec::new();
    let mut i: usize = 0;
    while i < n
        invariant
            i <= n,
            n == ls@.len(),
            lviews == spec_lines(input@),
            views_of(ls@) == lviews,
            segs_of(input@).len() == lviews.len(),
            out@.len() == i,
            forall|j: int| 0 <= j < i ==> seg_line_ok(#[trigger] lviews[j]),
            forall|j: int|
                0 <= j < i ==> {
                    let g = #[trigger] out@[j];
                    let sg = segs_of(input@)[j];
                    g.0 as int == sg.0 && g.1 as int == sg.1 && g.2 as int == sg.2 && g.3 as int
                        == sg.3 && g.0 >= 0 && g.1 >= 0 && g.2 >= 0 && g.3 >= 0
                },
        decreases n - i,
    {
        match parse_seg(&ls[i]) {
            None => {
                proof {
                    assert(!seg_line_ok(lviews[i as int]));
                }
                return None;
            },
            Some(g) => {
                proof {
                    assert(segs_of(input@)[i as int] == seg_of(lviews[i as int]));
                }
                out.push(g);
            },
        }
        i += 1;
    }
    Some(out)
}


/// Rasterizes every segment and counts the cells at least two segments
/// pass through, or reports a malformed record, an invalid segment, a
/// grid beyond the allocator bound, or an overflowing cell counter.
#[verifier::rlimit(100)]
fn try_count(input: &String, incl_diag: bool) -> (r: Option<i64>)
    ensures
        (r is Some) == day05_ok(input@, incl_diag),
        (match r {
            Some(v) => v == day05_answer(input@, incl_diag),
            None => true,
        }),
{
    let gs = match parse_segs(input) {
        None => {
            return None;
        },
        Some(gs) => gs,
    };
    let ghost segs = segs_of(input@);
    let ns = gs.len();
    let mut m: i64 = 0;
    let mut i: usize = 0;
    while i < ns
        invariant
            i <= ns,
            ns == gs@.len(),
            ns == segs.len(),
            segs == segs_of(input@),
            forall|j: int|
                0 <= j < ns ==> {
                    let g = #[trigger] gs@[j];
                    let sg = segs[j];
                    g.0 as int == sg.0 && g.1 as int == sg.1 && g.2 as int == sg.2 && g.3 as int
                        == sg.3 && g.0 >= 0 && g.1 >= 0 && g.2 >= 0 && g.3 >= 0
                },
            forall|j: int| 0 <= j < i ==> valid_seg(#[trigger] segs[j]),
            m as int == max_coord(segs, i as int),
            m >= 0,
        decreases ns - i,
    {
        let g = gs[i];
        let dx = if g.0 >= g.2 {
            g.0 - g.2
        } else {
            g.2 - g.0
        };
        let dy = if g.1 >= g.3 {
            g.1 - g.3
        } else {
            g.3 - g.1
        };
        if !(g.1 == g.3 || g.0 == g.2 || dx == dy) {
            proof {
                assert(!valid_seg(segs[i as int]));
            }
            return None;
        }
        let a = if g.0 >= g.1 {
            g.0
        } else {
            g.1
        };
        let b = if g.2 >= g.3 {
            g.2
        } else {
            g.3
        };
        let c = if a >= b {
            a
        } else {
            b
        };
        if c > m {
            m = c;
        }
        i += 1;
    }
    proof {
        assert(0 <= (m as int + 1) * (m as int + 1)
            <= 0x4000_0000_0000_0000_0000_0000_0000_0000) by (nonlinear_arith)
            requires
                0 <= m as int <= 0x7fff_ffff_ffff_ffff,
        ;
    }
    let size: i128 = (m as i128 + 1) * (m as i128 + 1);
    if size > 0x1000_0000 {
        return None;
    }
    proof {
        assert(m < 0x4000) by (nonlinear_arith)
            requires
                0 <= m as int,
                (m as int + 1) * (m as int + 1) <= 0x1000_0000,
        ;
    }
    proof {
        assert forall|j: int| 0 <= j < ns implies {
            let sg = #[trigger] segs[j];
            sg.0 <= m && sg.1 <= m && sg.2 <= m && sg.3 <= m && sg.0 >= 0 && sg.1 >= 0
                && sg.2 >= 0 && sg.3 >= 0
        } by {
            lemma_max_coord_ge(segs, ns as int, j);
        }
    }
    let side = (m + 1) as usize;
    let mut g = grid_zeros(side, side);
    let mut si: usize = 0;
    while si < ns
        invariant
            si <= ns,
            ns == gs@.len(),
            ns == segs.len(),
            segs == segs_of(input@),
            forall|j: int|
                0 <= j < ns ==> {
                    let g2 = #[trigger] gs@[j];
                    let sg = segs[j];
                    g2.0 as int == sg.0 && g2.1 as int == sg.1 && g2.2 as int == sg.2
                        && g2.3 as int == sg.3 && g2.0 >= 0 && g2.1 >= 0 && g2.2 >= 0 && g2.3
                        >= 0
                },
            forall|j: int| 0 <= j < ns ==> valid_seg(#[trigger] segs[j]),
            m as int == max_coord(segs, ns as int),
            0 <= m < 0x4000,
            side == m + 1,
            forall|j: int|
                0 <= j < ns ==> {
                    let sg = #[trigger] segs[j];
                    sg.0 <= m && sg.1 <= m && sg.2 <= m && sg.3 <= m && sg.0 >= 0 && sg.1 >= 0
                        && sg.2 >= 0 && sg.3 >= 0
                },
            grid_of(g).len() == side,
            rect(grid_of(g), side as int),
            forall|xx: int, yy: int|
                0 <= xx <= m && 0 <= yy <= m ==> #[trigger] grid_of(g)[yy][xx] == cell_total(
                    segs,
                    si as int,
                    incl_diag,
                    xx,
                    yy,
                ),
            forall|xx: int, yy: int|
                0 <= xx <= m && 0 <= yy <= m ==> #[trigger] grid_of(g)[yy][xx] <= i64::MAX,
        decreases ns - si,
    {
        let sg = gs[si];
        let ghost sgi = segs[si as int];
        if sg.1 == sg.3 || sg.0 == sg.2 || incl_diag {
            let dx = if sg.0 >= sg.2 {
                sg.0 - sg.2
            } else {
                sg.2 - sg.0
            };
            let dy = if sg.1 >= sg.3 {
                sg.1 - sg.3
            } else {
                sg.3 - sg.1
            };
            let np = if dx >= dy {
                dx + 1
            } else {
                dy + 1
            };
            proof {
                assert(np as int == seg_npoints(sgi));
                assert(seg_counted(sgi, incl_diag));
            }
            let mut k: i64 = 0;
            while k < np
                invariant
                    0 <= k <= np,
                    si < ns,
                    ns == gs@.len(),
                    ns == segs.len(),
                    segs == segs_of(input@),
                    m as int == max_coord(segs, ns as int),
                    sg == gs@[si as int],
                    sgi == segs[si as int],
                    sg.0 as int == sgi.0 && sg.1 as int == sgi.1 && sg.2 as int == sgi.2
                        && sg.3 as int == sgi.3,
                    valid_seg(sgi),
                    seg_counted(sgi, incl_diag),
                    np as int == seg_npoints(sgi),
                    0 <= sgi.0 <= m && 0 <= sgi.1 <= m && 0 <= sgi.2 <= m && 0 <= sgi.3 <= m,
                    0 <= m < 0x4000,
                    side == m + 1,
                    grid_of(g).len() == side,
                    rect(grid_of(g), side as int),
                    forall|xx: int, yy: int|
                        0 <= xx <= m && 0 <= yy <= m ==> #[trigger] grid_of(g)[yy][xx]
                            == cell_total(segs, si as int, incl_diag, xx, yy) + pt_hits_upto(
                            sgi,
                            k as int,
                            xx,
                            yy,
                        ),
                    forall|xx: int, yy: int|
                        0 <= xx <= m && 0 <= yy <= m ==> #[trigger] grid_of(g)[yy][xx]
                            <= i64::MAX,
                decreases np - k,
            {
                let x = if sg.2 > sg.0 {
                    sg.0 + k
                } else if sg.2 < sg.0 {
                    sg.0 - k
                } else {
                    sg.0
                };
                let y = if sg.3 > sg.1 {
                    sg.1 + k
                } else if sg.3 < sg.1 {
                    sg.1 - k
                } else {
                    sg.1
                };
                proof {
                    if sgi.2 != sgi.0 {
                        assert(abs(sgi.0 - sgi.2) == seg_npoints(sgi) - 1);
                    }
                    if sgi.3 != sgi.1 {
                        assert(abs(sgi.1 - sgi.3) == seg_npoints(sgi) - 1);
                    }
                    lemma_mul_sgn(k as int, sgn(sgi.2 - sgi.0));
                    lemma_mul_sgn(k as int, sgn(sgi.3 - sgi.1));
                    assert((x as int, y as int) == seg_point(sgi, k as int));
                    assert(0 <= x <= m && 0 <= y <= m);
                }
                let xu = x as usize;
                let yu = y as usize;
                let v = grid_get(&g, yu, xu);
                if v == i64::MAX {
                    proof {
                        if day05_ok(input@, incl_diag) {
                            assert(pt_hits_upto(sgi, k + 1, x as int, y as int) == pt_hits_upto(
                                sgi,
                                k as int,
                                x as int,
                                y as int,
                            ) + 1);
                            lemma_hits_upto_mono(sgi, k + 1, seg_npoints(sgi), x as int, y as int);
                            assert(cell_total(segs, si + 1, incl_diag, x as int, y as int)
                                == cell_total(segs, si as int, incl_diag, x as int, y as int)
                                + pt_hits(sgi, incl_diag, x as int, y as int));
                            lemma_cell_mono(
                                segs,
                                si + 1,
                                ns as int,
                                incl_diag,
                                x as int,
                                y as int,
                            );
                            assert(cell_total(segs, ns as int, incl_diag, x as int, y as int)
                                > i64::MAX);
                            assert(cell_total(
                                segs,
                                segs.len() as int,
                                incl_diag,
                                x as int,
                                y as int,
                            ) > i64::MAX);
                            assert(false);
                        }
                    }
                    return None;
                }
                grid_set(&mut g, yu, xu, v + 1);
                k += 1;
            }
            proof {
                assert forall|xx: int, yy: int| 0 <= xx <= m && 0 <= yy <= m implies #[trigger] grid_of(
                    g,
                )[yy][xx] == cell_total(segs, si + 1, incl_diag, xx, yy) by {
                    assert(grid_of(g)[yy][xx] == cell_total(segs, si as int, incl_diag, xx, yy)
                        + pt_hits_upto(sgi, np as int, xx, yy));
                }
            }
        } else {
            proof {
                assert(!seg_counted(sgi, incl_diag));
                assert forall|xx: int, yy: int| 0 <= xx <= m && 0 <= yy <= m implies #[trigger] grid_of(
                    g,
                )[yy][xx] == cell_total(segs, si + 1, incl_diag, xx, yy) by {
                    assert(pt_hits(sgi, incl_diag, xx, yy) == 0);
                }
            }
        }
        si += 1;
    }
    let mut cnt: i64 = 0;
    let mut yy: usize = 0;
    while yy < side
        invariant
            yy <= side,
            side == m + 1,
            0 <= m < 0x4000,
            segs == segs_of(input@),
            grid_of(g).len() == side,
            rect(grid_of(g), side as int),
            forall|x2: int, y2: int|
                0 <= x2 <= m && 0 <= y2 <= m ==> #[trigger] grid_of(g)[y2][x2] == cell_total(
                    segs,
                    segs.len() as int,
                    incl_diag,
                    x2,
                    y2,
                ),
            cnt as int == tot_cnt(segs, incl_diag, m as int, yy as int),
            0 <= cnt <= 0x1000_0000,
            (m as int + 1) * (m as int + 1) <= 0x1000_0000,
        decreases side - yy,
    {
        let mut xx: usize = 0;
        while xx < side
            invariant
                xx <= side,
                yy < side,
                side == m + 1,
                0 <= m < 0x4000,
                segs == segs_of(input@),
                grid_of(g).len() == side,
                rect(grid_of(g), side as int),
                forall|x2: int, y2: int|
                    0 <= x2 <= m && 0 <= y2 <= m ==> #[trigger] grid_of(g)[y2][x2] == cell_total(
                        segs,
                        segs.len() as int,
                        incl_diag,
                        x2,
                        y2,
                    ),
                cnt as int == tot_cnt(segs, incl_diag, m as int, yy as int) + row_cnt(
                    segs,
                    incl_diag,
                    yy as int,
                    xx as int,
                ),
                0 <= cnt <= 0x1000_0000,
                (m as int + 1) * (m as int + 1) <= 0x1000_0000,
            decreases side - xx,
        {
            let v = grid_get(&g, yy, xx);
            proof {
                lemma_tot_cnt_bound(segs, incl_diag, m as int, yy as int);
                lemma_row_cnt_bound(segs, incl_diag, yy as int, xx + 1);
                assert((yy as int) * (m as int + 1) + (m as int + 1) <= (m as int + 1) * (m
                    as int + 1)) by (nonlinear_arith)
                    requires
                        0 <= yy as int <= m as int,
                ;
            }
            if v >= 2 {
                cnt = cnt + 1;
            }
            xx += 1;
        }
        yy += 1;
    }
    proof {
        assert(cnt as int == day05_answer(input@, incl_diag));
        assert forall|x2: int, y2: int| 0 <= x2 <= m && 0 <= y2 <= m implies cell_total(
            segs,
            segs.len() as int,
            incl_diag,
            x2,
            y2,
        ) <= i64::MAX by {
            assert(grid_of(g)[y2][x2] == cell_total(segs, segs.len() as int, incl_diag, x2, y2));
            assert(grid_of(g)[y2][x2] <= i64::MAX);
        }
        assert(day05_ok(input@, incl_diag));
    }
    Some(cnt)
}

/// Counts overlap cells with diagonals left out, or reports a bad
/// input.
pub fn try_part1(input: &String) -> (r: Option<i64>)
    ensures
        (r is Some) == day05_ok(input@, false),
        (match r {
            Some(v) => v == day05_answer(input@, false),
            None => true,
        }),
{
    try_count(input, false)
}

/// Counts overlap cells with diagonals included, or reports a bad
/// input.
pub fn try_part2(input: &String) -> (r: Option<i64>)
    ensures
        (r is Some) == day05_ok(input@, true),
        (match r {
            Some(v) => v == day05_answer(input@, true),
            None => true,
        }),
{
    try_count(input, true)
}

/// How many cells at least two straight segments pass through.
pub fn solve_part1(input: &String, _input_mode: &InputMode) -> (r: i64)
    requires
        day05_ok(input@, false),
    ensures
        r == day05_answer(input@, false),
{
    match try_count(input, false) {
        Some(v) => v,
        None => {
            proof {
                assert(false);
            }
            0
        },
    }
}

/// How many cells at least two segments pass through, diagonals
/// included.
pub fn solve_part2(input: &String, _input_mode: &InputMode) -> (r: i64)
    requires
        day05_ok(input@, true),
    ensures
        r == day05_answer(input@, true),
{
    match try_count(input, true) {
        Some(v) => v,
        None => {
            proof {
                assert(false);
            }
            0
        },
    }
}
} // verus!
