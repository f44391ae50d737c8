//! Ranges of product IDs, `first-last`, separated by commas. An ID is
//! invalid when its decimal text is one block of digits written several
//! times over.
use vstd::prelude::*;

use crate::solver::Solver;
use crate::text::{
    chars_of, decimal_of, decimal_u128, decimal_u64, parse_digits, split_chars, split_on,
    u64_value, views_of,
};

verus! {

/// A character that the end of the input may carry.
pub open spec fn is_space(c: char) -> bool {
    c == ' ' || c == '\n' || c == '\r' || c == '\t'
}

/// `s` without its trailing whitespace.
pub open spec fn trim_end(s: Seq<char>) -> Seq<char>
    decreases s.len(),
{
    if s.len() > 0 && is_space(s.last()) {
        trim_end(s.drop_last())
    } else {
        s
    }
}

/// The range a piece writes: two numbers joined by `-`.
pub open spec fn range_of(piece: Seq<char>) -> Option<(int, int)> {
    let parts = split_on(piece, '-');
    if parts.len() == 2 {
        match (u64_value(parts[0]), u64_value(parts[1])) {
            (Some(a), Some(b)) => Some((a, b)),
            _ => None,
        }
    } else {
        None
    }
}

pub open spec fn ranges_of(pieces: Seq<Seq<char>>) -> Option<Seq<(int, int)>>
    decreases pieces.len(),
{
    if pieces.len() == 0 {
        Some(Seq::empty())
    } else {
        match ranges_of(pieces.drop_last()) {
            Some(rs) => match range_of(pieces.last()) {
                Some(r) => Some(rs.push(r)),
                None => None,
            },
            None => None,
        }
    }
}

/// The ranges of the input: pieces separated by commas, trailing whitespace
/// ignored; `None` when a piece is not a range.
pub open spec fn parse_ranges(input: Seq<char>) -> Option<Seq<(int, int)>> {
    ranges_of(split_on(trim_end(input), ','))
}

/// `s` is one block written exactly twice.
pub open spec fn doubled(s: Seq<char>) -> bool {
    s.len() > 0 && s.len() % 2 == 0 && forall|k: int|
        0 <= k < s.len() / 2 ==> #[trigger] s[k] == s[k + s.len() / 2]
}

/// `s` is one block written two or more times.
pub open spec fn repeated(s: Seq<char>) -> bool {
    exists|j: int|
        1 <= j <= s.len() / 2 && (s.len() as int) % j == 0 && #[trigger] block_repeats(s, j)
}

/// `s` repeats its first `j` characters throughout.
pub open spec fn block_repeats(s: Seq<char>, j: int) -> bool {
    forall|k: int| 0 <= k < s.len() ==> #[trigger] s[k] == s[k % j]
}

pub open spec fn invalid(n: int, at_least_twice: bool) -> bool {
    if at_least_twice {
        repeated(decimal_of(n))
    } else {
        doubled(decimal_of(n))
    }
}

/// The sum of the invalid IDs from `from` to `to`, both included.
pub open spec fn range_sum(from: int, to: int, at_least_twice: bool) -> int
    decreases to + 1 - from,
{
    if to < from {
        0
    } else {
        range_sum(from, to - 1, at_least_twice) + if invalid(to, at_least_twice) {
            to
        } else {
            0
        }
    }
}

/// The sum of the invalid IDs of all ranges.
pub open spec fn total(ranges: Seq<(int, int)>, at_least_twice: bool) -> int
    decreases ranges.len(),
{
    if ranges.len() == 0 {
        0
    } else {
        total(ranges.drop_last(), at_least_twice) + range_sum(
            ranges.last().0,
            ranges.last().1,
            at_least_twice,
        )
    }
}

pub open spec fn answer_for(ranges: Option<Seq<(int, int)>>, at_least_twice: bool) -> Seq<char> {
    match ranges {
        Some(r) => if total(r, at_least_twice) <= u128::MAX {
            decimal_of(total(r, at_least_twice))
        } else {
            Seq::empty()
        },
        None => Seq::empty(),
    }
}

pub struct Day2Solver {
    pub input: Option<Vec<(u64, u64)>>,
}

pub open spec fn pairs_of(v: Seq<(u64, u64)>) -> Seq<(int, int)> {
    v.map_values(|p: (u64, u64)| (p.0 as int, p.1 as int))
}

impl Day2Solver {
    pub open spec fn ranges(&self) -> Option<Seq<(int, int)>> {
        match self.input {
            Some(v) => Some(pairs_of(v@)),
            None => None,
        }
    }
}

fn trim_end_len(s: &Vec<char>) -> (n: usize)
    ensures
        n <= s.len(),
        s@.subrange(0, n as int) == trim_end(s@),
{
    let mut n: usize = s.len();
    assert(s@.subrange(0, n as int) =~= s@);
    while n > 0 && (s[n - 1] == ' ' || s[n - 1] == '\n' || s[n - 1] == '\r' || s[n - 1] == '\t')
        invariant
            n <= s.len(),
            trim_end(s@.subrange(0, n as int)) == trim_end(s@),
        decreases n,
    {
        assert(s@.subrange(0, n as int).drop_last() =~= s@.subrange(0, n - 1));
        n -= 1;
    }
    n
}

proof fn lemma_ranges_none_stays(ps: Seq<Seq<char>>, i: int)
    requires
        0 <= i <= ps.len(),
        ranges_of(ps.subrange(0, i)) is None,
    ensures
        ranges_of(ps) is None,
    decreases ps.len() - i,
{
    if i < ps.len() {
        assert(ps.subrange(0, i + 1).drop_last() =~= ps.subrange(0, i));
        lemma_ranges_none_stays(ps, i + 1);
    } else {
        assert(ps.subrange(0, i) =~= ps);
    }
}

fn parse_range(piece: &Vec<char>) -> (r: Option<(u64, u64)>)
    ensures
        match r {
            Some(p) => range_of(piece@) == Some((p.0 as int, p.1 as int)),
            None => range_of(piece@) is None,
        },
{
    let parts = split_chars(piece, '-');
    proof {
        assert(views_of(parts@).len() == parts.len());
    }
    if parts.len() != 2 {
        return None;
    }
    assert(views_of(parts@)[0] == parts[0]@);
    assert(views_of(parts@)[1] == parts[1]@);
    assert(parts[0]@.subrange(0, parts[0].len() as int) =~= parts[0]@);
    assert(parts[1]@.subrange(0, parts[1].len() as int) =~= parts[1]@);
    let a = parse_digits(&parts[0], 0, parts[0].len());
    let b = parse_digits(&parts[1], 0, parts[1].len());
    match (a, b) {
        (Some(x), Some(y)) => Some((x, y)),
        _ => None,
    }
}

fn parse_input(input: &str) -> (r: Option<Vec<(u64, u64)>>)
    ensures
        match r {
            Some(v) => parse_ranges(input@) == Some(pairs_of(v@)),
            None => parse_ranges(input@) is None,
        },
{
    let cs = chars_of(input);
    let n = trim_end_len(&cs);
    let mut trimmed: Vec<char> = Vec::new();
    let mut k: usize = 0;
    while k < n
        invariant
            k <= n <= cs.len(),
            trimmed@ == cs@.subrange(0, k as int),
        decreases n - k,
    {
        trimmed.push(cs[k]);
        assert(cs@.subrange(0, k + 1) =~= cs@.subrange(0, k as int).push(cs@[k as int]));
        k += 1;
    }
    let pieces = split_chars(&trimmed, ',');
    let ghost ps = views_of(pieces@);
    let mut out: Vec<(u64, u64)> = Vec::new();
    let mut i: usize = 0;
    while i < pieces.len()
        invariant
            i <= pieces.len(),
            ps == views_of(pieces@),
            ps == split_on(trim_end(input@), ','),
            ranges_of(ps.subrange(0, i as int)) == Some(pairs_of(out@)),
        decreases pieces.len() - i,
    {
        assert(ps.subrange(0, i + 1).drop_last() =~= ps.subrange(0, i as int));
        assert(ps.subrange(0, i + 1).last() == pieces[i as int]@);
        match parse_range(&pieces[i]) {
            Some(p) => {
                out.push(p);
                assert(pairs_of(out@) =~= pairs_of(out@.drop_last()).push(
                    (p.0 as int, p.1 as int),
                ));
            },
            None => {
                proof { lemma_ranges_none_stays(ps, i + 1); }
                return None;
            },
        }
        i += 1;
    }
    assert(ps.subrange(0, ps.len() as int) =~= ps);
    Some(out)
}

fn is_doubled(s: &Vec<char>) -> (r: bool)
    ensures
        r == doubled(s@),
{
    let n = s.len();
    if n == 0 || n % 2 != 0 {
        return false;
    }
    let h = n / 2;
    let mut k: usize = 0;
    while k < h
        invariant
            h == n / 2,
            n == s.len(),
            k <= h,
            forall|q: int| 0 <= q < k ==> #[trigger] s@[q] == s@[q + h],
        decreases h - k,
    {
        if s[k] != s[k + h] {
            return false;
        }
        k += 1;
    }
    true
}

fn repeats_block(s: &Vec<char>, j: usize) -> (r: bool)
    requires
        1 <= j <= s.len(),
    ensures
        r == block_repeats(s@, j as int),
{
    let mut k: usize = 0;
    while k < s.len()
        invariant
            k <= s.len(),
            1 <= j <= s.len(),
            forall|q: int| 0 <= q < k ==> #[trigger] s@[q] == s@[q % (j as int)],
        decreases s.len() - k,
    {
        if s[k] != s[k % j] {
            return false;
        }
        k += 1;
    }
    true
}

fn is_repeated(s: &Vec<char>) -> (r: bool)
    ensures
        r == repeated(s@),
{
    let n = s.len();
    let mut j: usize = 1;
    while j <= n / 2
        invariant
            n == s.len(),
            1 <= j <= n / 2 + 1,
            forall|q: int| 1 <= q < j && (n as int) % q == 0 ==> !#[trigger] block_repeats(s@, q),
        decreases n / 2 + 1 - j,
    {
        if n % j == 0 && repeats_block(s, j) {
            return true;
        }
        j += 1;
    }
    false
}

fn is_invalid(n: u64, at_least_twice: bool) -> (r: bool)
    ensures
        r == invalid(n as int, at_least_twice),
{
    let text = decimal_u64(n);
    let cs = chars_of(text.as_str());
    assert(decimal_of(n as int) == cs@);
    if at_least_twice {
        is_repeated(&cs)
    } else {
        is_doubled(&cs)
    }
}

proof fn lemma_range_sum_grows(from: int, t1: int, t2: int, at_least_twice: bool)
    requires
        0 <= from,
        t1 <= t2,
    ensures
        0 <= range_sum(from, t1, at_least_twice) <= range_sum(from, t2, at_least_twice),
    decreases t2 + 1 - from,
{
    if t2 >= from {
        if t1 < t2 {
            lemma_range_sum_grows(from, t1, t2 - 1, at_least_twice);
        } else {
            lemma_range_sum_grows(from, t1 - 1, t1 - 1, at_least_twice);
        }
    }
}

proof fn lemma_total_nonneg(r: Seq<(int, int)>, at_least_twice: bool)
    requires
        forall|q: int| 0 <= q < r.len() ==> 0 <= (#[trigger] r[q]).0,
    ensures
        0 <= total(r, at_least_twice),
    decreases r.len(),
{
    if r.len() > 0 {
        let p = r.drop_last();
        assert forall|q: int| 0 <= q < p.len() implies 0 <= (#[trigger] p[q]).0 by {
            assert(p[q] == r[q]);
        }
        lemma_total_nonneg(p, at_least_twice);
        assert(r.last() == r[r.len() - 1]);
        lemma_range_sum_grows(r.last().0, r.last().1, r.last().1, at_least_twice);
    }
}

proof fn lemma_total_grows(r: Seq<(int, int)>, i: int, at_least_twice: bool)
    requires
        0 <= i <= r.len(),
        forall|q: int| 0 <= q < r.len() ==> 0 <= (#[trigger] r[q]).0,
    ensures
        0 <= total(r.subrange(0, i), at_least_twice) <= total(r, at_least_twice),
    decreases r.len() - i,
{
    if i < r.len() {
        lemma_total_grows(r, i + 1, at_least_twice);
        let s = r.subrange(0, i + 1);
        assert(s.drop_last() =~= r.subrange(0, i));
        assert(s.last() == r[i]);
        lemma_range_sum_grows(r[i].0, r[i].1, r[i].1, at_least_twice);
        let p = r.subrange(0, i);
        assert forall|q: int| 0 <= q < p.len() implies 0 <= (#[trigger] p[q]).0 by {
            assert(p[q] == r[q]);
        }
        lemma_total_nonneg(p, at_least_twice);
    } else {
        assert(r.subrange(0, i) =~= r);
        lemma_total_nonneg(r, at_least_twice);
    }
}

/// The sum of the invalid IDs of the ranges, or `None` when it does not fit
/// in `u128`.
fn sum_invalid(ranges: &Vec<(u64, u64)>, at_least_twice: bool) -> (r: Option<u128>)
    ensures
        match r {
            Some(v) => v == total(pairs_of(ranges@), at_least_twice),
            None => total(pairs_of(ranges@), at_least_twice) > u128::MAX,
        },
{
    let ghost rs = pairs_of(ranges@);
    proof {
        assert forall|q: int| 0 <= q < rs.len() implies 0 <= (#[trigger] rs[q]).0 by {}
    }
    let mut acc: u128 = 0;
    let mut i: usize = 0;
    while i < ranges.len()
        invariant
            i <= ranges.len(),
            rs == pairs_of(ranges@),
            forall|q: int| 0 <= q < rs.len() ==> 0 <= (#[trigger] rs[q]).0,
            acc == total(rs.subrange(0, i as int), at_least_twice),
        decreases ranges.len() - i,
    {
        let (a, b) = ranges[i];
        let ghost base = acc as int;
        proof {
            assert(rs.subrange(0, i + 1).drop_last() =~= rs.subrange(0, i as int));
            assert(rs.subrange(0, i + 1).last() == (a as int, b as int));
        }
        if a <= b {
            let mut n: u64 = a;
            loop
                invariant_except_break
                    acc == base + range_sum(a as int, n - 1, at_least_twice),
                invariant
                    a <= n <= b,
                    i < ranges.len(),
                    rs == pairs_of(ranges@),
                    forall|q: int| 0 <= q < rs.len() ==> 0 <= (#[trigger] rs[q]).0,
                    rs.subrange(0, i + 1).drop_last() == rs.subrange(0, i as int),
                    rs.subrange(0, i + 1).last() == (a as int, b as int),
                    base == total(rs.subrange(0, i as int), at_least_twice),
                ensures
                    acc == base + range_sum(a as int, b as int, at_least_twice),
                decreases b - n,
            {
                if is_invalid(n, at_least_twice) {
                    match acc.checked_add(n as u128) {
                        Some(v) => {
                            acc = v;
                        },
                        None => {
                            proof {
                                lemma_range_sum_grows(a as int, n as int, b as int, at_least_twice);
                                lemma_total_grows(rs, i + 1, at_least_twice);
                            }
                            return None;
                        },
                    }
                }
                if n == b {
                    break;
                }
                n += 1;
            }
        }
        i += 1;
    }
    assert(rs.subrange(0, ranges.len() as int) =~= rs);
    Some(acc)
}

fn answer(input: &Option<Vec<(u64, u64)>>, at_least_twice: bool) -> (r: String)
    ensures
        r@ == answer_for(
            match input {
                Some(v) => Some(pairs_of(v@)),
                None => None,
            },
            at_least_twice,
        ),
{
    match input {
        Some(v) => match sum_invalid(v, at_least_twice) {
            Some(t) => decimal_u128(t),
            None => String::new(),
        },
        None => String::new(),
    }
}

impl Solver for Day2Solver {
    open spec fn holds_input(&self, input: Seq<char>) -> bool {
        self.ranges() == parse_ranges(input)
    }

    /// The sum of the IDs written as one block twice.
    open spec fn answer_one(&self) -> Seq<char> {
        answer_for(self.ranges(), false)
    }

    /// The sum of the IDs written as one block two or more times.
    open spec fn answer_two(&self) -> Seq<char> {
        answer_for(self.ranges(), true)
    }

    fn presolve(&mut self, input: &str) {
        self.input = parse_input(input);
    }

    fn solve_part_one(&mut self) -> (r: String) {
        answer(&self.input, false)
    }

    fn solve_part_two(&mut self) -> (r: String) {
        answer(&self.input, true)
    }
}

/// A solver with no input yet.
pub fn solver() -> (r: Day2Solver)
    ensures
        r.input is None,
{
    Day2Solver { input: None }
}

} // verus!
