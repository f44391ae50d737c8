//! A tachyon manifold: a beam enters at `S` and moves down row by row; a
//! splitter `^` in its way stops it and sends one beam to each side.
use vstd::prelude::*;

use crate::solver::Solver;
use crate::text::{chars_of, decimal_of, decimal_u128, split_chars, split_on, views_of};

verus! {

pub type Rows = Seq<Seq<char>>;

/// The column of the last `S` in a row, or -1.
pub open spec fn last_s(row: Seq<char>) -> int
    decreases row.len(),
{
    if row.len() == 0 {
        -1
    } else if row.last() == 'S' {
        row.len() - 1
    } else {
        last_s(row.drop_last())
    }
}

/// Where the beam enters: the last `S` of the input.
pub open spec fn start_of(rows: Rows) -> Option<(int, int)>
    decreases rows.len(),
{
    if rows.len() == 0 {
        None
    } else if last_s(rows.last()) >= 0 {
        Some((rows.len() - 1, last_s(rows.last())))
    } else {
        start_of(rows.drop_last())
    }
}

pub open spec fn max_len(rows: Rows) -> int
    decreases rows.len(),
{
    if rows.len() == 0 {
        0
    } else if max_len(rows.drop_last()) >= rows.last().len() {
        max_len(rows.drop_last())
    } else {
        rows.last().len() as int
    }
}

/// The columns a beam can reach: one past the longest row.
pub open spec fn width(rows: Rows) -> int {
    max_len(rows) + 1
}

pub open spec fn splitter(rows: Rows, i: int, j: int) -> bool {
    0 <= i < rows.len() && 0 <= j < rows[i].len() && rows[i][j] == '^'
}

/// The beams after passing row `i`: a beam goes on unless a splitter stands
/// in its column, in which case beams go on in the two columns beside it.
pub open spec fn step(b: Seq<bool>, rows: Rows, i: int) -> Seq<bool> {
    Seq::new(
        b.len(),
        |j: int|
            (b[j] && !splitter(rows, i, j)) || (j >= 1 && b[j - 1] && splitter(rows, i, j - 1)) || (
            j + 1 < b.len() && b[j + 1] && splitter(rows, i, j + 1)),
    )
}

/// How many of the first `n` columns carry a beam onto a splitter of row `i`.
pub open spec fn splits(b: Seq<bool>, rows: Rows, i: int, n: int) -> int
    decreases n,
{
    if n <= 0 {
        0
    } else {
        splits(b, rows, i, n - 1) + if b[n - 1] && splitter(rows, i, n - 1) {
            1int
        } else {
            0int
        }
    }
}

/// The beams `m` rows below the start.
pub open spec fn beams(rows: Rows, start: (int, int), m: nat) -> Seq<bool>
    decreases m,
{
    if m == 0 {
        Seq::new(width(rows) as nat, |j: int| j == start.1)
    } else {
        step(beams(rows, start, (m - 1) as nat), rows, start.0 + m)
    }
}

/// The splits over the first `m` rows below the start.
pub open spec fn total_splits(rows: Rows, start: (int, int), m: nat) -> int
    decreases m,
{
    if m == 0 {
        0
    } else {
        total_splits(rows, start, (m - 1) as nat) + splits(
            beams(rows, start, (m - 1) as nat),
            rows,
            start.0 + m,
            width(rows),
        )
    }
}

/// The timelines after row `i`: those of a column go on unless a splitter
/// stands there, in which case they go on in both columns beside it.
pub open spec fn step_counts(c: Seq<int>, rows: Rows, i: int) -> Seq<int> {
    Seq::new(
        c.len(),
        |j: int|
            (if !splitter(rows, i, j) {
                c[j]
            } else {
                0
            }) + (if j >= 1 && splitter(rows, i, j - 1) {
                c[j - 1]
            } else {
                0
            }) + (if j + 1 < c.len() && splitter(rows, i, j + 1) {
                c[j + 1]
            } else {
                0
            }),
    )
}

/// The timelines per column `m` rows below the start.
pub open spec fn counts(rows: Rows, start: (int, int), m: nat) -> Seq<int>
    decreases m,
{
    if m == 0 {
        Seq::new(
            width(rows) as nat,
            |j: int|
                if j == start.1 {
                    1
                } else {
                    0
                },
        )
    } else {
        step_counts(counts(rows, start, (m - 1) as nat), rows, start.0 + m)
    }
}

pub open spec fn seq_sum(c: Seq<int>, n: int) -> int
    decreases n,
{
    if n <= 0 {
        0
    } else {
        seq_sum(c, n - 1) + c[n - 1]
    }
}

/// The number of rows below the start.
pub open spec fn levels(rows: Rows, start: (int, int)) -> nat {
    if rows.len() - start.0 - 1 >= 0 {
        (rows.len() - start.0 - 1) as nat
    } else {
        0
    }
}

/// Every timeline count on the way down, and their sum at the bottom, fit
/// in `u128`.
pub open spec fn counts_fit(rows: Rows, start: (int, int)) -> bool {
    &&& forall|m: nat, j: int|
        m <= levels(rows, start) && 0 <= j < width(rows) ==> #[trigger] counts(rows, start, m)[j]
            <= u128::MAX
    &&& seq_sum(counts(rows, start, levels(rows, start)), width(rows)) <= u128::MAX
}

/// The beam simulation fits machine sizes: the width is a `usize`.
pub open spec fn sizes_ok(rows: Rows) -> bool {
    width(rows) <= usize::MAX
}

pub open spec fn answer_one_of(rows: Rows) -> Seq<char> {
    match start_of(rows) {
        Some(s) => if sizes_ok(rows) {
            decimal_of(total_splits(rows, s, levels(rows, s)))
        } else {
            Seq::empty()
        },
        None => Seq::empty(),
    }
}

pub open spec fn answer_two_of(rows: Rows) -> Seq<char> {
    match start_of(rows) {
        Some(s) => if sizes_ok(rows) && counts_fit(rows, s) {
            decimal_of(seq_sum(counts(rows, s, levels(rows, s)), width(rows)))
        } else {
            Seq::empty()
        },
        None => Seq::empty(),
    }
}

/// The manifold, one row of characters per line.
pub struct Day5Solver {
    pub grid: Vec<Vec<char>>,
}

fn find_last_s(row: &Vec<char>) -> (r: Option<usize>)
    ensures
        match r {
            Some(j) => j == last_s(row@),
            None => last_s(row@) == -1,
        },
{
    let mut k: usize = row.len();
    assert(row@.subrange(0, k as int) =~= row@);
    while k > 0
        invariant
            k <= row.len(),
            last_s(row@) == last_s(row@.subrange(0, k as int)),
        decreases k,
    {
        assert(row@.subrange(0, k as int).drop_last() =~= row@.subrange(0, k - 1));
        if row[k - 1] == 'S' {
            return Some(k - 1);
        }
        k -= 1;
    }
    None
}

proof fn lemma_last_s_range(row: Seq<char>)
    ensures
        -1 <= last_s(row) < row.len(),
    decreases row.len(),
{
    if row.len() > 0 {
        lemma_last_s_range(row.drop_last());
    }
}

proof fn lemma_start_range(rows: Rows)
    ensures
        match start_of(rows) {
            Some(s) => 0 <= s.0 < rows.len() && 0 <= s.1 < rows[s.0].len(),
            None => true,
        },
    decreases rows.len(),
{
    if rows.len() > 0 {
        lemma_last_s_range(rows.last());
        if last_s(rows.last()) < 0 {
            lemma_start_range(rows.drop_last());
            if let Some(s) = start_of(rows.drop_last()) {
                assert(rows[s.0] == rows.drop_last()[s.0]);
            }
        }
    }
}

proof fn lemma_max_len(rows: Rows, i: int)
    requires
        0 <= i < rows.len(),
    ensures
        rows[i].len() <= max_len(rows),
        max_len(rows) >= 0,
    decreases rows.len(),
{
    if i < rows.len() - 1 {
        lemma_max_len(rows.drop_last(), i);
        assert(rows[i] == rows.drop_last()[i]);
    } else if rows.len() > 1 {
        lemma_max_len(rows.drop_last(), 0);
    }
}

fn find_start(rows: &Vec<Vec<char>>) -> (r: Option<(usize, usize)>)
    ensures
        match r {
            Some(s) => start_of(views_of(rows@)) == Some((s.0 as int, s.1 as int)),
            None => start_of(views_of(rows@)) is None,
        },
{
    let ghost rv = views_of(rows@);
    let mut k: usize = rows.len();
    assert(rv.subrange(0, k as int) =~= rv);
    while k > 0
        invariant
            k <= rows.len(),
            rv == views_of(rows@),
            start_of(rv) == start_of(rv.subrange(0, k as int)),
        decreases k,
    {
        assert(rv.subrange(0, k as int).drop_last() =~= rv.subrange(0, k - 1));
        assert(rv.subrange(0, k as int).last() == rows[k - 1]@);
        if let Some(j) = find_last_s(&rows[k - 1]) {
            return Some((k - 1, j));
        }
        k -= 1;
    }
    None
}

pub(crate) fn max_row_len(rows: &Vec<Vec<char>>) -> (r: usize)
    ensures
        r == max_len(views_of(rows@)),
{
    let ghost rv = views_of(rows@);
    let mut m: usize = 0;
    let mut i: usize = 0;
    while i < rows.len()
        invariant
            i <= rows.len(),
            rv == views_of(rows@),
            m == max_len(rv.subrange(0, i as int)),
        decreases rows.len() - i,
    {
        assert(rv.subrange(0, i + 1).drop_last() =~= rv.subrange(0, i as int));
        assert(rv.subrange(0, i + 1).last() == rows[i as int]@);
        if rows[i].len() > m {
            m = rows[i].len();
        }
        i += 1;
    }
    assert(rv.subrange(0, rows.len() as int) =~= rv);
    m
}

fn is_splitter(rows: &Vec<Vec<char>>, i: usize, j: usize) -> (r: bool)
    ensures
        r == splitter(views_of(rows@), i as int, j as int),
{
    if i >= rows.len() {
        return false;
    }
    let row = &rows[i];
    assert(views_of(rows@)[i as int] == row@);
    j < row.len() && row[j] == '^'
}

fn step_beams(rows: &Vec<Vec<char>>, b: &Vec<bool>, i: usize) -> (r: (Vec<bool>, u128))
    ensures
        r.0@ == step(b@, views_of(rows@), i as int),
        r.1 == splits(b@, views_of(rows@), i as int, b.len() as int),
        r.1 <= b.len(),
{
    let ghost rv = views_of(rows@);
    let w = b.len();
    let mut nb: Vec<bool> = Vec::new();
    let mut c: u128 = 0;
    let mut j: usize = 0;
    while j < w
        invariant
            j <= w == b.len(),
            rv == views_of(rows@),
            nb@ == step(b@, rv, i as int).subrange(0, j as int),
            c == splits(b@, rv, i as int, j as int),
            c <= j,
        decreases w - j,
    {
        let here = is_splitter(rows, i, j);
        let left = j >= 1 && b[j - 1] && is_splitter(rows, i, j - 1);
        let right = j + 1 < w && b[j + 1] && is_splitter(rows, i, j + 1);
        nb.push((b[j] && !here) || left || right);
        assert(nb@ =~= step(b@, rv, i as int).subrange(0, j + 1));
        if b[j] && here {
            c += 1;
        }
        j += 1;
    }
    assert(step(b@, rv, i as int).subrange(0, w as int) =~= step(b@, rv, i as int));
    (nb, c)
}

fn count_splits(rows: &Vec<Vec<char>>, start: (usize, usize), w: usize) -> (r: u128)
    requires
        w == width(views_of(rows@)),
        start.0 < rows.len(),
    ensures
        r == total_splits(views_of(rows@), (start.0 as int, start.1 as int), levels(views_of(rows@), (start.0 as int, start.1 as int))),
{
    let ghost rv = views_of(rows@);
    let ghost s = (start.0 as int, start.1 as int);
    let mut b: Vec<bool> = Vec::new();
    let mut j: usize = 0;
    while j < w
        invariant
            j <= w,
            b@ == Seq::new(w as nat, |q: int| q == start.1).subrange(0, j as int),
        decreases w - j,
    {
        b.push(j == start.1);
        assert(b@ =~= Seq::new(w as nat, |q: int| q == start.1).subrange(0, j + 1));
        j += 1;
    }
    assert(b@ =~= beams(rv, s, 0));
    let levels_n: usize = rows.len() - start.0 - 1;
    let mut total: u128 = 0;
    let mut m: usize = 0;
    while m < levels_n
        invariant
            m <= levels_n == levels(rv, s),
            rv == views_of(rows@),
            s == (start.0 as int, start.1 as int),
            start.0 < rows.len(),
            levels_n == rows.len() - start.0 - 1,
            b.len() == w,
            w == width(rv),
            b@ == beams(rv, s, m as nat),
            total == total_splits(rv, s, m as nat),
            total <= m * w,
        decreases levels_n - m,
    {
        let (nb, c) = step_beams(rows, &b, start.0 + m + 1);
        assert(total_splits(rv, s, (m + 1) as nat) == total_splits(rv, s, m as nat) + splits(
            b@,
            rv,
            s.0 + m + 1,
            width(rv),
        ));
        assert(beams(rv, s, (m + 1) as nat) == step(b@, rv, s.0 + m + 1));
        assert(total + c <= (m + 1) * w && (m + 1) * w <= u128::MAX) by (nonlinear_arith)
            requires
                total <= m * w,
                c <= w,
                m + 1 <= u64::MAX,
                w <= u64::MAX,
        ;
        total = total + c;
        b = nb;
        m += 1;
    }
    total
}

pub open spec fn ints(v: Seq<u128>) -> Seq<int> {
    v.map_values(|x: u128| x as int)
}

fn step_timelines(rows: &Vec<Vec<char>>, c: &Vec<u128>, i: usize) -> (r: Option<Vec<u128>>)
    ensures
        match r {
            Some(v) => ints(v@) == step_counts(ints(c@), views_of(rows@), i as int) && v.len()
                == c.len(),
            None => exists|j: int|
                0 <= j < c.len() && #[trigger] step_counts(ints(c@), views_of(rows@), i as int)[j]
                    > u128::MAX,
        },
{
    let ghost rv = views_of(rows@);
    let ghost cv = ints(c@);
    let w = c.len();
    let mut out: Vec<u128> = Vec::new();
    let mut j: usize = 0;
    while j < w
        invariant
            j <= w == c.len(),
            rv == views_of(rows@),
            cv == ints(c@),
            ints(out@) == step_counts(cv, rv, i as int).subrange(0, j as int),
        decreases w - j,
    {
        let ghost target = step_counts(cv, rv, i as int)[j as int];
        let a: u128 = if !is_splitter(rows, i, j) {
            c[j]
        } else {
            0
        };
        let b: u128 = if j >= 1 && is_splitter(rows, i, j - 1) {
            c[j - 1]
        } else {
            0
        };
        let d: u128 = if j + 1 < w && is_splitter(rows, i, j + 1) {
            c[j + 1]
        } else {
            0
        };
        assert(target == a + b + d);
        let ab = match a.checked_add(b) {
            Some(x) => x,
            None => return None,
        };
        let v = match ab.checked_add(d) {
            Some(x) => x,
            None => return None,
        };
        let ghost before = ints(out@);
        out.push(v);
        assert(ints(out@) =~= before.push(v as int));
        assert(step_counts(cv, rv, i as int).subrange(0, j + 1) =~= step_counts(cv, rv, i as int).subrange(0, j as int).push(target));
        j += 1;
    }
    assert(step_counts(cv, rv, i as int).subrange(0, w as int) =~= step_counts(cv, rv, i as int));
    assert(ints(out@).len() == out.len());
    Some(out)
}

fn sum_all(c: &Vec<u128>) -> (r: Option<u128>)
    ensures
        match r {
            Some(v) => v == seq_sum(ints(c@), c.len() as int),
            None => seq_sum(ints(c@), c.len() as int) > u128::MAX,
        },
{
    let ghost cv = ints(c@);
    let mut acc: u128 = 0;
    let mut j: usize = 0;
    while j < c.len()
        invariant
            j <= c.len(),
            cv == ints(c@),
            acc == seq_sum(cv, j as int),
        decreases c.len() - j,
    {
        match acc.checked_add(c[j]) {
            Some(x) => {
                acc = x;
            },
            None => {
                proof { lemma_seq_sum_grows(cv, j + 1, c.len() as int); }
                return None;
            },
        }
        j += 1;
    }
    Some(acc)
}

proof fn lemma_seq_sum_grows(c: Seq<int>, a: int, b: int)
    requires
        0 <= a <= b <= c.len(),
        forall|q: int| 0 <= q < c.len() ==> #[trigger] c[q] >= 0,
    ensures
        seq_sum(c, a) <= seq_sum(c, b),
    decreases b - a,
{
    if a < b {
        lemma_seq_sum_grows(c, a, b - 1);
    }
}

fn count_timelines(rows: &Vec<Vec<char>>, start: (usize, usize), w: usize) -> (r: Option<u128>)
    requires
        w == width(views_of(rows@)),
        start.0 < rows.len(),
    ensures
        match r {
            Some(v) => counts_fit(views_of(rows@), (start.0 as int, start.1 as int)) && v == seq_sum(
                counts(views_of(rows@), (start.0 as int, start.1 as int), levels(views_of(rows@), (start.0 as int, start.1 as int))),
                width(views_of(rows@)),
            ),
            None => !counts_fit(views_of(rows@), (start.0 as int, start.1 as int)),
        },
{
    let ghost rv = views_of(rows@);
    let ghost s = (start.0 as int, start.1 as int);
    let mut cur: Vec<u128> = Vec::new();
    let mut j: usize = 0;
    while j < w
        invariant
            j <= w,
            ints(cur@) == counts(rv, s, 0).subrange(0, j as int),
            w == width(rv),
            s == (start.0 as int, start.1 as int),
        decreases w - j,
    {
        let v: u128 = if j == start.1 { 1 } else { 0 };
        let ghost before = ints(cur@);
        cur.push(v);
        assert(ints(cur@) =~= before.push(v as int));
        assert(counts(rv, s, 0).subrange(0, j + 1) =~= counts(rv, s, 0).subrange(0, j as int).push(v as int));
        j += 1;
    }
    assert(ints(cur@) =~= counts(rv, s, 0));
    proof {
        assert forall|m2: nat| #[trigger] counts(rv, s, m2).len() == w by {
            lemma_counts_len(rv, s, m2);
        }
    }
    let levels_n: usize = rows.len() - start.0 - 1;
    let mut m: usize = 0;
    while m < levels_n
        invariant
            m <= levels_n == levels(rv, s),
            rv == views_of(rows@),
            s == (start.0 as int, start.1 as int),
            levels_n == rows.len() - start.0 - 1,
            w == width(rv),
            cur.len() == w,
            ints(cur@) == counts(rv, s, m as nat),
            forall|m2: nat, q: int|
                m2 <= m && 0 <= q < w ==> #[trigger] counts(rv, s, m2)[q] <= u128::MAX,
            forall|m2: nat| #[trigger] counts(rv, s, m2).len() == w,
        decreases levels_n - m,
    {
        proof {
            assert forall|q: int| 0 <= q < w implies #[trigger] counts(rv, s, m as nat)[q] <= u128::MAX by {
                assert(ints(cur@)[q] == cur@[q] as int);
            }
        }
        let next = match step_timelines(rows, &cur, start.0 + m + 1) {
            Some(v) => v,
            None => {
                proof {
                    assert(counts(rv, s, (m + 1) as nat) == step_counts(ints(cur@), rv, s.0 + m + 1));
                    let q = choose|q: int| 0 <= q < cur.len() && #[trigger] step_counts(ints(cur@), rv, s.0 + m + 1)[q] > u128::MAX;
                    assert(counts(rv, s, (m + 1) as nat)[q] > u128::MAX);
                }
                return None;
            },
        };
        assert(counts(rv, s, (m + 1) as nat) == step_counts(ints(cur@), rv, s.0 + m + 1));
        proof {
            assert forall|m2: nat, q: int| m2 <= m + 1 && 0 <= q < w implies #[trigger] counts(rv, s, m2)[q] <= u128::MAX by {
                if m2 == m + 1 {
                    assert(ints(next@)[q] == next@[q] as int);
                }
            }
        }
        cur = next;
        m += 1;
    }
    proof {
        assert forall|q: int| 0 <= q < w implies #[trigger] counts(rv, s, m as nat)[q] <= u128::MAX by {
            assert(ints(cur@)[q] == cur@[q] as int);
        }
        assert forall|q: int| 0 <= q < ints(cur@).len() implies #[trigger] ints(cur@)[q] >= 0 by {
            assert(ints(cur@)[q] == cur@[q] as int);
        }
    }
    sum_all(&cur)
}

proof fn lemma_counts_len(rows: Rows, s: (int, int), m: nat)
    requires
        width(rows) >= 0,
    ensures
        counts(rows, s, m).len() == width(rows),
    decreases m,
{
    if m > 0 {
        lemma_counts_len(rows, s, (m - 1) as nat);
    }
}

fn answers(rows: &Vec<Vec<char>>, part_two: bool) -> (r: String)
    ensures
        r@ == (if part_two {
            answer_two_of(views_of(rows@))
        } else {
            answer_one_of(views_of(rows@))
        }),
{
    let ghost rv = views_of(rows@);
    let start = match find_start(rows) {
        Some(s) => s,
        None => return String::new(),
    };
    proof { lemma_start_range(rv); }
    let ml = max_row_len(rows);
    if ml == usize::MAX {
        return String::new();
    }
    let w = ml + 1;
    if part_two {
        match count_timelines(rows, start, w) {
            Some(v) => decimal_u128(v),
            None => String::new(),
        }
    } else {
        decimal_u128(count_splits(rows, start, w))
    }
}

impl Solver for Day5Solver {
    open spec fn holds_input(&self, input: Seq<char>) -> bool {
        views_of(self.grid@) == split_on(input, '\n')
    }

    /// How many times the beam is split.
    open spec fn answer_one(&self) -> Seq<char> {
        answer_one_of(views_of(self.grid@))
    }

    /// How many timelines a single particle ends up in.
    open spec fn answer_two(&self) -> Seq<char> {
        answer_two_of(views_of(self.grid@))
    }

    fn presolve(&mut self, input: &str) {
        let cs = chars_of(input);
        self.grid = split_chars(&cs, '\n');
    }

    fn solve_part_one(&mut self) -> (r: String) {
        answers(&self.grid, false)
    }

    fn solve_part_two(&mut self) -> (r: String) {
        answers(&self.grid, true)
    }
}

/// A solver with an empty manifold.
pub fn solver() -> (r: Day5Solver)
    ensures
        r.grid@.len() == 0,
{
    Day5Solver { grid: Vec::new() }
}

} // verus!
