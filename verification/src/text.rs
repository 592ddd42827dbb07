//! Verified text utilities shared by the solver kernels: turning a string
//! into its characters, splitting on a separator, trimming whitespace and
//! parsing signed decimal integers.
//!
//! Every function here is verified against a spec-level model of the same
//! operation on `Seq<char>`.

use vstd::prelude::*;
use vstd::string::*;

verus! {

/// The characters of `s`, one vector element per char.
pub fn chars_of(s: &str) -> (r: Vec<char>)
    ensures
        r@ == s@,
{
    let n = s.unicode_len();
    let mut r: Vec<char> = Vec::new();
    let mut i: usize = 0;
    while i < n
        invariant
            i <= n,
            n == s@.len(),
            r@ == s@.subrange(0, i as int),
        decreases n - i,
    {
        let c = s.get_char(i);
        r.push(c);
        proof {
            assert(s@.subrange(0, i as int).push(s@[i as int]) =~= s@.subrange(0, i + 1 as int));
        }
        i += 1;
    }
    proof {
        assert(s@.subrange(0, n as int) =~= s@);
    }
    r
}

/// A copy of the characters of `s` between `lo` (inclusive) and `hi`
/// (exclusive).
pub fn subvec(s: &Vec<char>, lo: usize, hi: usize) -> (r: Vec<char>)
    requires
        lo <= hi <= s@.len(),
    ensures
        r@ == s@.subrange(lo as int, hi as int),
{
    let mut r: Vec<char> = Vec::new();
    let mut i: usize = lo;
    while i < hi
        invariant
            lo <= i <= hi <= s@.len(),
            r@ == s@.subrange(lo as int, i as int),
        decreases hi - i,
    {
        r.push(s[i]);
        proof {
            assert(s@.subrange(lo as int, i as int).push(s@[i as int]) =~= s@.subrange(
                lo as int,
                i + 1 as int,
            ));
        }
        i += 1;
    }
    r
}

/// Whether the characters of `v` spell exactly the string `pat`.
pub fn chars_eq_str(v: &Vec<char>, pat: &str) -> (b: bool)
    ensures
        b == (v@ == pat@),
{
    let n = pat.unicode_len();
    if v.len() != n {
        return false;
    }
    let mut i: usize = 0;
    while i < n
        invariant
            i <= n,
            n == pat@.len(),
            v@.len() == n,
            forall|j: int| 0 <= j < i ==> v@[j] == pat@[j],
        decreases n - i,
    {
        if v[i] != pat.get_char(i) {
            return false;
        }
        i += 1;
    }
    proof {
        assert(v@ =~= pat@);
    }
    true
}

/// The pieces of `s` between occurrences of `sep`: always one more piece
/// than there are separators, so an empty input gives one empty piece.
pub open spec fn spec_split(s: Seq<char>, sep: char) -> Seq<Seq<char>>
    decreases s.len(),
{
    if s.len() == 0 {
        seq![Seq::<char>::empty()]
    } else {
        let prev = spec_split(s.drop_last(), sep);
        if s.last() == sep {
            prev.push(Seq::<char>::empty())
        } else {
            prev.update(prev.len() - 1, prev.last().push(s.last()))
        }
    }
}

pub proof fn lemma_split_len(s: Seq<char>, sep: char)
    ensures
        spec_split(s, sep).len() >= 1,
    decreases s.len(),
{
    if s.len() > 0 {
        lemma_split_len(s.drop_last(), sep);
    }
}

/// Splits `s` at every occurrence of `sep`.
pub fn split_char(s: &Vec<char>, sep: char) -> (r: Vec<Vec<char>>)
    ensures
        r@.len() == spec_split(s@, sep).len(),
        forall|i: int| 0 <= i < r@.len() ==> (#[trigger] r@[i])@ == spec_split(s@, sep)[i],
{
    let mut done: Vec<Vec<char>> = Vec::new();
    let mut cur: Vec<char> = Vec::new();
    let n = s.len();
    let mut i: usize = 0;
    while i < n
        invariant
            i <= n,
            n == s@.len(),
            done@.len() + 1 == spec_split(s@.subrange(0, i as int), sep).len(),
            forall|j: int|
                0 <= j < done@.len() ==> (#[trigger] done@[j])@ == spec_split(
                    s@.subrange(0, i as int),
                    sep,
                )[j],
            cur@ == spec_split(s@.subrange(0, i as int), sep).last(),
        decreases n - i,
    {
        let ghost pre = s@.subrange(0, i as int);
        let ghost post = s@.subrange(0, i + 1 as int);
        proof {
            assert(post.drop_last() =~= pre);
            lemma_split_len(pre, sep);
        }
        let c = s[i];
        if c == sep {
            done.push(cur);
            cur = Vec::new();
        } else {
            cur.push(c);
        }
        i += 1;
    }
    proof {
        assert(s@.subrange(0, n as int) =~= s@);
        lemma_split_len(s@, sep);
    }
    done.push(cur);
    done
}

/// The newline-delimited records of `s`: a single trailing newline does
/// not open an extra empty record, and an empty input has no records.
pub open spec fn spec_lines(s: Seq<char>) -> Seq<Seq<char>> {
    if s.len() == 0 {
        Seq::<Seq<char>>::empty()
    } else if s.last() == '\n' {
        spec_split(s.drop_last(), '\n')
    } else {
        spec_split(s, '\n')
    }
}

/// Splits `s` into its newline-delimited records.
pub fn lines_of(s: &Vec<char>) -> (r: Vec<Vec<char>>)
    ensures
        r@.len() == spec_lines(s@).len(),
        forall|i: int| 0 <= i < r@.len() ==> (#[trigger] r@[i])@ == spec_lines(s@)[i],
{
    let n = s.len();
    if n == 0 {
        return Vec::new();
    }
    if s[n - 1] == '\n' {
        let head = subvec(s, 0, n - 1);
        proof {
            assert(head@ =~= s@.drop_last());
        }
        split_char(&head, '\n')
    } else {
        split_char(s, '\n')
    }
}

/// The tokens of `ts` that are not empty.
pub open spec fn nonempty_tokens(ts: Seq<Seq<char>>) -> Seq<Seq<char>>
    decreases ts.len(),
{
    if ts.len() == 0 {
        Seq::<Seq<char>>::empty()
    } else {
        let rest = nonempty_tokens(ts.drop_last());
        if ts.last().len() > 0 {
            rest.push(ts.last())
        } else {
            rest
        }
    }
}

/// The whitespace characters that trimming removes.
pub open spec fn is_space(c: char) -> bool {
    c == ' ' || c == '\n' || c == '\t' || c == '\r'
}

/// Whether `c` is a whitespace character.
pub fn is_space_char(c: char) -> (b: bool)
    ensures
        b == is_space(c),
{
    c == ' ' || c == '\n' || c == '\t' || c == '\r'
}

/// `s` with leading and trailing whitespace removed.
pub open spec fn spec_trim(s: Seq<char>) -> Seq<char>
    decreases s.len(),
{
    if s.len() == 0 {
        s
    } else if is_space(s.first()) {
        spec_trim(s.drop_first())
    } else if is_space(s.last()) {
        spec_trim(s.drop_last())
    } else {
        s
    }
}

/// Removes leading and trailing whitespace.
pub fn trim_chars(s: &Vec<char>) -> (r: Vec<char>)
    ensures
        r@ == spec_trim(s@),
{
    let mut lo: usize = 0;
    let mut hi: usize = s.len();
    proof {
        assert(s@.subrange(0, s@.len() as int) =~= s@);
    }
    while lo < hi && is_space_char(s[lo])
        invariant
            lo <= hi,
            hi == s@.len(),
            spec_trim(s@) == spec_trim(s@.subrange(lo as int, hi as int)),
        decreases hi - lo,
    {
        proof {
            let sub = s@.subrange(lo as int, hi as int);
            assert(sub.drop_first() =~= s@.subrange(lo + 1 as int, hi as int));
        }
        lo += 1;
    }
    while hi > lo && is_space_char(s[hi - 1])
        invariant
            lo <= hi <= s@.len(),
            spec_trim(s@) == spec_trim(s@.subrange(lo as int, hi as int)),
            lo < hi ==> !is_space(s@[lo as int]),
        decreases hi - lo,
    {
        proof {
            let sub = s@.subrange(lo as int, hi as int);
            assert(sub.drop_last() =~= s@.subrange(lo as int, hi - 1 as int));
        }
        hi -= 1;
    }
    subvec(s, lo, hi)
}

/// The space-separated non-empty tokens of a piece of text.
pub fn tokens_of(piece: &Vec<char>) -> (r: Vec<Vec<char>>)
    ensures
        views_of(r@) == nonempty_tokens(spec_split(spec_trim(piece@), ' ')),
{
    let tr = trim_chars(piece);
    let raw = split_char(&tr, ' ');
    let ghost all = spec_split(spec_trim(piece@), ' ');
    proof {
        assert(views_of(raw@) =~= all);
    }
    let mut out: Vec<Vec<char>> = Vec::new();
    let n = raw.len();
    let mut i: usize = 0;
    while i < n
        invariant
            i <= n,
            n == raw@.len(),
            views_of(raw@) == all,
            views_of(out@) == nonempty_tokens(all.subrange(0, i as int)),
        decreases n - i,
    {
        proof {
            assert(all.subrange(0, i + 1 as int).drop_last() =~= all.subrange(0, i as int));
            assert(all.subrange(0, i + 1 as int).last() == all[i as int]);
        }
        if raw[i].len() > 0 {
            let t = subvec(&raw[i], 0, raw[i].len());
            proof {
                assert(t@ =~= all[i as int]);
            }
            out.push(t);
        }
        proof {
            assert(views_of(out@) =~= nonempty_tokens(all.subrange(0, i + 1 as int)));
        }
        i += 1;
    }
    proof {
        assert(all.subrange(0, n as int) =~= all);
    }
    out
}

/// Whether `c` is a decimal digit.
pub open spec fn is_digit(c: char) -> bool {
    48 <= c as u32 && c as u32 <= 57
}

/// The numeric value of a digit character.
pub open spec fn digit_val(c: char) -> int {
    c as u32 - 48
}

/// Whether every character of `s` is a decimal digit.
pub open spec fn all_digits(s: Seq<char>) -> bool {
    forall|i: int| 0 <= i < s.len() ==> is_digit(#[trigger] s[i])
}

/// The value of a digit string, most significant digit first.
pub open spec fn digits_val(s: Seq<char>) -> int
    decreases s.len(),
{
    if s.len() == 0 {
        0
    } else {
        digits_val(s.drop_last()) * 10 + digit_val(s.last())
    }
}

/// Whether `s` spells an integer: an optional minus sign followed by at
/// least one decimal digit.
pub open spec fn is_int_chars(s: Seq<char>) -> bool {
    if s.len() > 0 && s[0] == '-' {
        s.len() >= 2 && all_digits(s.skip(1))
    } else {
        s.len() >= 1 && all_digits(s)
    }
}

/// The value spelled by an integer string.
pub open spec fn int_chars_val(s: Seq<char>) -> int {
    if s.len() > 0 && s[0] == '-' {
        -digits_val(s.skip(1))
    } else {
        digits_val(s)
    }
}

/// Whether `s` spells an integer whose value fits in an `i64`.
pub open spec fn parses_to_i64(s: Seq<char>) -> bool {
    is_int_chars(s) && i64::MIN <= int_chars_val(s) <= i64::MAX
}

pub proof fn lemma_digits_val_nonneg(s: Seq<char>)
    requires
        all_digits(s),
    ensures
        digits_val(s) >= 0,
    decreases s.len(),
{
    if s.len() > 0 {
        assert(all_digits(s.drop_last()));
        lemma_digits_val_nonneg(s.drop_last());
        assert(is_digit(s.last()));
    }
}

/// A digit string's value never falls when more digits are appended.
pub proof fn lemma_digits_val_prefix_le(s: Seq<char>, i: int)
    requires
        all_digits(s),
        0 <= i <= s.len(),
    ensures
        digits_val(s.subrange(0, i)) <= digits_val(s),
    decreases s.len() - i,
{
    if i < s.len() {
        lemma_digits_val_prefix_le(s, i + 1);
        let p = s.subrange(0, i);
        let q = s.subrange(0, i + 1);
        assert(q.drop_last() =~= p);
        assert(all_digits(p));
        lemma_digits_val_nonneg(p);
        assert(is_digit(q.last()));
        assert(digits_val(q) == digits_val(p) * 10 + digit_val(q.last()));
        assert(digits_val(p) * 10 >= digits_val(p)) by (nonlinear_arith)
            requires
                digits_val(p) >= 0,
        ;
    } else {
        assert(s.subrange(0, i) =~= s);
    }
}

/// Parses a run of decimal digits starting at `start`, detecting values
/// beyond `u64`.
fn parse_digits(s: &Vec<char>, start: usize) -> (r: Option<u64>)
    requires
        start <= s@.len(),
    ensures
        (match r {
            Some(v) => {
                &&& s@.len() - start >= 1
                &&& all_digits(s@.skip(start as int))
                &&& v == digits_val(s@.skip(start as int))
            },
            None => !(s@.len() - start >= 1 && all_digits(s@.skip(start as int)) && digits_val(
                s@.skip(start as int),
            ) <= u64::MAX),
        }),
{
    let ghost t = s@.skip(start as int);
    let n = s.len();
    if start >= n {
        return None;
    }
    let mut acc: u64 = 0;
    let mut i: usize = start;
    while i < n
        invariant
            start <= i <= n,
            n == s@.len(),
            t == s@.skip(start as int),
            t.len() == n - start,
            forall|j: int| start <= j < i ==> t[j - start] == s@[j],
            all_digits(t.subrange(0, i - start)),
            acc == digits_val(t.subrange(0, i - start)),
        decreases n - i,
    {
        let ghost k = i - start;
        let ghost p = t.subrange(0, k);
        let ghost q = t.subrange(0, k + 1);
        proof {
            assert(q.drop_last() =~= p);
            assert(t[k] == s@[i as int]);
        }
        let c = s[i];
        let u = c as u32;
        if u < 48 || u > 57 {
            proof {
                assert(!is_digit(t[k]));
            }
            return None;
        }
        let d = (u - 48) as u64;
        proof {
            assert(is_digit(t[k]));
            assert(d == digit_val(t[k]));
        }
        if acc > (u64::MAX - d) / 10 {
            proof {
                assert(digits_val(q) == acc * 10 + d);
                assert(acc * 10 + d > u64::MAX) by (nonlinear_arith)
                    requires
                        acc > (u64::MAX - d) / 10,
                        0 <= d <= 9,
                        acc >= 0,
                ;
                assert(all_digits(t) ==> digits_val(t) > u64::MAX) by {
                    if all_digits(t) {
                        lemma_digits_val_prefix_le(t, k + 1);
                    }
                }
            }
            return None;
        }
        proof {
            assert(acc * 10 + d <= u64::MAX) by (nonlinear_arith)
                requires
                    acc <= (u64::MAX - d) / 10,
                    0 <= d <= 9,
                    acc >= 0,
            ;
        }
        acc = acc * 10 + d;
        i += 1;
    }
    proof {
        assert(t.subrange(0, t.len() as int) =~= t);
    }
    Some(acc)
}

/// Parses a signed decimal integer, accepting exactly the strings that
/// [`parses_to_i64`] accepts.
pub fn parse_i64(s: &Vec<char>) -> (r: Option<i64>)
    ensures
        (r is Some) == parses_to_i64(s@),
        (match r {
            Some(v) => v == int_chars_val(s@),
            None => true,
        }),
{
    if s.len() == 0 {
        return None;
    }
    if s[0] == '-' {
        let ghost t = s@.skip(1);
        match parse_digits(s, 1) {
            None => {
                proof {
                    if is_int_chars(s@) {
                        lemma_digits_val_nonneg(t);
                        assert(digits_val(t) > u64::MAX);
                        assert(int_chars_val(s@) == -digits_val(t));
                        assert(int_chars_val(s@) < i64::MIN);
                    }
                }
                None
            },
            Some(m) => {
                if m <= i64::MAX as u64 {
                    Some(-(m as i64))
                } else if m == i64::MAX as u64 + 1 {
                    Some(i64::MIN)
                } else {
                    proof {
                        assert(int_chars_val(s@) < i64::MIN);
                    }
                    None
                }
            },
        }
    } else {
        proof {
            assert(s@.skip(0) =~= s@);
        }
        match parse_digits(s, 0) {
            None => {
                proof {
                    if is_int_chars(s@) {
                        assert(all_digits(s@));
                        assert(digits_val(s@) > u64::MAX);
                    }
                }
                None
            },
            Some(m) => {
                if m <= i64::MAX as u64 {
                    proof {
                        lemma_digits_val_nonneg(s@);
                    }
                    Some(m as i64)
                } else {
                    None
                }
            },
        }
    }
}

/// The views of a sequence of viewable values.
pub open spec fn views_of<T: View>(ts: Seq<T>) -> Seq<T::V> {
    ts.map_values(|t: T| t@)
}

/// The mathematical values of a sequence of `i64`s.
pub open spec fn ints_of(vs: Seq<i64>) -> Seq<int> {
    vs.map_values(|x: i64| x as int)
}

/// Whether every token in `ts` spells an `i64`.
pub open spec fn all_parse_i64(ts: Seq<Seq<char>>) -> bool {
    forall|i: int| 0 <= i < ts.len() ==> parses_to_i64(#[trigger] ts[i])
}

/// The values of a sequence of integer tokens.
pub open spec fn vals_of(ts: Seq<Seq<char>>) -> Seq<int> {
    ts.map_values(|t: Seq<char>| int_chars_val(t))
}

/// Parses every token, or reports that some token is not an `i64`.
pub fn parse_i64_all(ts: &Vec<Vec<char>>) -> (r: Option<Vec<i64>>)
    ensures
        (r is Some) == all_parse_i64(views_of(ts@)),
        (match r {
            Some(vs) => {
                &&& vs@.len() == ts@.len()
                &&& forall|i: int| 0 <= i < vs@.len() ==> vs@[i] == vals_of(views_of(ts@))[i]
            },
            None => true,
        }),
{
    let mut vs: Vec<i64> = Vec::new();
    let n = ts.len();
    let mut i: usize = 0;
    while i < n
        invariant
            i <= n,
            n == ts@.len(),
            vs@.len() == i,
            forall|j: int| 0 <= j < i ==> parses_to_i64(views_of(ts@)[j]),
            forall|j: int| 0 <= j < i ==> vs@[j] == vals_of(views_of(ts@))[j],
        decreases n - i,
    {
        match parse_i64(&ts[i]) {
            None => {
                proof {
                    assert(views_of(ts@)[i as int] == ts@[i as int]@);
                    assert(!parses_to_i64(views_of(ts@)[i as int]));
                }
                return None;
            },
            Some(v) => {
                vs.push(v);
            },
        }
        i += 1;
    }
    Some(vs)
}

} // verus!
