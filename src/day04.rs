//! A grid of paper rolls (`@`). A roll can be taken away when fewer than
//! four of its eight neighbours hold a roll.
use vstd::prelude::*;

use crate::solver::Solver;
use crate::text::{chars_of, decimal_of, decimal_u128, split_chars, split_on, views_of};

verus! {

pub type Grid = Seq<Seq<bool>>;

/// The grid the lines draw: `@` is a roll, anything else empty.
pub open spec fn grid_of(input: Seq<char>) -> Grid {
    split_on(input, '\n').map_values(|line: Seq<char>| line.map_values(|c: char| c == '@'))
}

pub open spec fn occupied(g: Grid, i: int, j: int) -> bool {
    0 <= i < g.len() && 0 <= j < g[i].len() && g[i][j]
}

pub open spec fn one_if(b: bool) -> int {
    if b {
        1
    } else {
        0
    }
}

/// How many of the eight neighbours of `(i, j)` hold a roll.
pub open spec fn neighbours(g: Grid, i: int, j: int) -> int {
    one_if(occupied(g, i - 1, j - 1)) + one_if(occupied(g, i - 1, j)) + one_if(
        occupied(g, i - 1, j + 1),
    ) + one_if(occupied(g, i, j - 1)) + one_if(occupied(g, i, j + 1)) + one_if(
        occupied(g, i + 1, j - 1),
    ) + one_if(occupied(g, i + 1, j)) + one_if(occupied(g, i + 1, j + 1))
}

pub open spec fn removable(g: Grid, i: int, j: int) -> bool {
    occupied(g, i, j) && neighbours(g, i, j) < 4
}

/// How many cells of row `i`, among its first `n`, satisfy `removable`
/// (when `only_removable`) or hold a roll.
pub open spec fn row_count(g: Grid, i: int, n: int, only_removable: bool) -> int
    decreases n,
{
    if n <= 0 {
        0
    } else {
        row_count(g, i, n - 1, only_removable) + one_if(
            if only_removable {
                removable(g, i, n - 1)
            } else {
                occupied(g, i, n - 1)
            },
        )
    }
}

/// The same count over the first `m` rows.
pub open spec fn grid_count(g: Grid, m: int, only_removable: bool) -> int
    decreases m,
{
    if m <= 0 {
        0
    } else {
        grid_count(g, m - 1, only_removable) + row_count(g, m - 1, g[m - 1].len() as int, only_removable)
    }
}

pub open spec fn rolls(g: Grid) -> int {
    grid_count(g, g.len() as int, false)
}

pub open spec fn removable_rolls_count(g: Grid) -> int {
    grid_count(g, g.len() as int, true)
}

/// The grid after taking away, at once, every roll that can be.
pub open spec fn step(g: Grid) -> Grid {
    Seq::new(
        g.len(),
        |i: int| Seq::new(g[i].len(), |j: int| g[i][j] && !removable(g, i, j)),
    )
}

/// The grid after `n` rounds of `step`.
pub open spec fn rounds(g: Grid, n: nat) -> Grid
    decreases n,
{
    if n == 0 {
        g
    } else {
        step(rounds(g, (n - 1) as nat))
    }
}

pub struct Day4Solver {
    pub input: Vec<Vec<bool>>,
}

pub open spec fn grid_view(v: Seq<Vec<bool>>) -> Grid {
    v.map_values(|r: Vec<bool>| r@)
}

fn parse_input(input: &str) -> (r: Vec<Vec<bool>>)
    ensures
        grid_view(r@) == grid_of(input@),
{
    let cs = chars_of(input);
    let lines = split_chars(&cs, '\n');
    let ghost ls = views_of(lines@);
    let mut out: Vec<Vec<bool>> = Vec::new();
    let mut i: usize = 0;
    while i < lines.len()
        invariant
            i <= lines.len(),
            ls == views_of(lines@),
            ls == split_on(input@, '\n'),
            grid_view(out@) == ls.subrange(0, i as int).map_values(
                |line: Seq<char>| line.map_values(|c: char| c == '@'),
            ),
        decreases lines.len() - i,
    {
        let line = &lines[i];
        let mut row: Vec<bool> = Vec::new();
        let mut j: usize = 0;
        while j < line.len()
            invariant
                j <= line.len(),
                i < lines.len(),
                line == lines@[i as int],
                ls == views_of(lines@),
                ls == split_on(input@, '\n'),
                grid_view(out@) == ls.subrange(0, i as int).map_values(
                    |line: Seq<char>| line.map_values(|c: char| c == '@'),
                ),
                row@ == line@.subrange(0, j as int).map_values(|c: char| c == '@'),
            decreases line.len() - j,
        {
            row.push(line[j] == '@');
            assert(line@.subrange(0, j + 1) =~= line@.subrange(0, j as int).push(line@[j as int]));
            assert(row@ =~= line@.subrange(0, j + 1).map_values(|c: char| c == '@'));
            j += 1;
        }
        assert(line@.subrange(0, line.len() as int) =~= line@);
        assert(ls[i as int] == line@);
        assert(row@ == ls[i as int].map_values(|c: char| c == '@'));
        assert(ls.subrange(0, i + 1) =~= ls.subrange(0, i as int).push(ls[i as int]));
        let ghost before = grid_view(out@);
        out.push(row);
        assert(grid_view(out@) =~= before.push(ls[i as int].map_values(|c: char| c == '@')));
        assert(grid_view(out@) =~= ls.subrange(0, i + 1).map_values(
            |line: Seq<char>| line.map_values(|c: char| c == '@'),
        ));
        i += 1;
    }
    assert(ls.subrange(0, ls.len() as int) =~= ls);
    out
}

fn at(g: &Vec<Vec<bool>>, i: i64, j: i64) -> (r: bool)
    requires
        g.len() < i64::MAX,
        forall|k: int| 0 <= k < g.len() ==> (#[trigger] g@[k]).len() < i64::MAX,
    ensures
        r == occupied(grid_view(g@), i as int, j as int),
{
    if i < 0 || j < 0 {
        return false;
    }
    if i >= g.len() as i64 {
        return false;
    }
    let row = &g[i as usize];
    assert(grid_view(g@)[i as int] == row@);
    if j >= row.len() as i64 {
        return false;
    }
    row[j as usize]
}

fn is_removable(g: &Vec<Vec<bool>>, i: usize, j: usize) -> (r: bool)
    requires
        i < g.len() < i64::MAX,
        j < g@[i as int].len(),
        forall|k: int| 0 <= k < g.len() ==> (#[trigger] g@[k]).len() < i64::MAX,
    ensures
        r == removable(grid_view(g@), i as int, j as int),
{
    let ghost gv = grid_view(g@);
    assert(gv[i as int] == g@[i as int]@);
    if !g[i][j] {
        return false;
    }
    let a = i as i64;
    let b = j as i64;
    let mut n: u32 = 0;
    if at(g, a - 1, b - 1) { n += 1; }
    if at(g, a - 1, b) { n += 1; }
    if at(g, a - 1, b + 1) { n += 1; }
    if at(g, a, b - 1) { n += 1; }
    if at(g, a, b + 1) { n += 1; }
    if at(g, a + 1, b - 1) { n += 1; }
    if at(g, a + 1, b) { n += 1; }
    if at(g, a + 1, b + 1) { n += 1; }
    n < 4
}

/// Takes away every roll that can be, returning the new grid and how many
/// rolls were taken.
fn step_grid(g: &Vec<Vec<bool>>) -> (r: (Vec<Vec<bool>>, u128))
    requires
        g.len() < i64::MAX,
        forall|k: int| 0 <= k < g.len() ==> (#[trigger] g@[k]).len() < i64::MAX,
    ensures
        grid_view(r.0@) == step(grid_view(g@)),
        r.1 == removable_rolls_count(grid_view(g@)),
        r.0.len() == g.len(),
        forall|k: int| 0 <= k < g.len() ==> (#[trigger] r.0@[k]).len() == g@[k].len(),
{
    let ghost gv = grid_view(g@);
    let mut out: Vec<Vec<bool>> = Vec::new();
    let mut count: u128 = 0;
    let mut i: usize = 0;
    while i < g.len()
        invariant
            i <= g.len() < i64::MAX,
            gv == grid_view(g@),
            forall|k: int| 0 <= k < g.len() ==> (#[trigger] g@[k]).len() < i64::MAX,
            out.len() == i,
            forall|k: int| 0 <= k < i ==> (#[trigger] out@[k])@ == step(gv)[k],
            count == grid_count(gv, i as int, true),
            count <= i * 0x7fff_ffff_ffff_ffffu128,
        decreases g.len() - i,
    {
        let row = &g[i];
        let ghost rv = gv[i as int];
        assert(rv == row@);
        let mut nrow: Vec<bool> = Vec::new();
        let mut rc: u64 = 0;
        let mut j: usize = 0;
        while j < row.len()
            invariant
                i < g.len() < i64::MAX,
                gv == grid_view(g@),
                forall|k: int| 0 <= k < g.len() ==> (#[trigger] g@[k]).len() < i64::MAX,
                row == g@[i as int],
                rv == row@,
                rv == gv[i as int],
                j <= row.len(),
                nrow@ == step(gv)[i as int].subrange(0, j as int),
                rc == row_count(gv, i as int, j as int, true),
                rc <= j,
            decreases row.len() - j,
        {
            let rem = is_removable(g, i, j);
            nrow.push(row[j] && !rem);
            assert(nrow@ =~= step(gv)[i as int].subrange(0, j + 1));
            if rem {
                rc += 1;
            }
            j += 1;
        }
        assert(nrow@ =~= step(gv)[i as int]);
        out.push(nrow);
        assert(count + rc <= (i + 1) * 0x7fff_ffff_ffff_ffffu128) by (nonlinear_arith)
            requires
                count <= i * 0x7fff_ffff_ffff_ffffu128,
                rc <= 0x7fff_ffff_ffff_ffffu128,
        ;
        count = count + rc as u128;
        i += 1;
    }
    assert(grid_view(out@) =~= step(gv));
    (out, count)
}

proof fn lemma_row_count_nonneg(g: Grid, i: int, n: int, only_removable: bool)
    ensures
        0 <= row_count(g, i, n, only_removable) <= if n > 0 {
            n
        } else {
            0
        },
    decreases n,
{
    if n > 0 {
        lemma_row_count_nonneg(g, i, n - 1, only_removable);
    }
}

proof fn lemma_grid_count_nonneg(g: Grid, m: int, only_removable: bool)
    ensures
        0 <= grid_count(g, m, only_removable),
    decreases m,
{
    if m > 0 {
        lemma_grid_count_nonneg(g, m - 1, only_removable);
        lemma_row_count_nonneg(g, m - 1, g[m - 1].len() as int, only_removable);
    }
}

proof fn lemma_step_row(g: Grid, i: int, n: int)
    requires
        0 <= i < g.len(),
        n <= g[i].len(),
    ensures
        row_count(step(g), i, n, false) == row_count(g, i, n, false) - row_count(g, i, n, true),
    decreases n,
{
    if n > 0 {
        lemma_step_row(g, i, n - 1);
        assert(occupied(step(g), i, n - 1) == (occupied(g, i, n - 1) && !removable(g, i, n - 1)));
    }
}

proof fn lemma_step_rolls(g: Grid, m: int)
    requires
        0 <= m <= g.len(),
    ensures
        grid_count(step(g), m, false) == grid_count(g, m, false) - grid_count(g, m, true),
    decreases m,
{
    if m > 0 {
        lemma_step_rolls(g, m - 1);
        lemma_step_row(g, m - 1, g[m - 1].len() as int);
        assert(step(g)[m - 1].len() == g[m - 1].len());
    }
}

proof fn lemma_no_removable_row(g: Grid, i: int, n: int, j: int)
    requires
        row_count(g, i, n, true) == 0,
        0 <= j < n,
    ensures
        !removable(g, i, j),
    decreases n,
{
    lemma_row_count_nonneg(g, i, n - 1, true);
    if j < n - 1 {
        lemma_no_removable_row(g, i, n - 1, j);
    }
}

proof fn lemma_no_removable_grid(g: Grid, m: int, i: int, j: int)
    requires
        grid_count(g, m, true) == 0,
        0 <= i < m <= g.len(),
        0 <= j < g[i].len(),
    ensures
        !removable(g, i, j),
    decreases m,
{
    lemma_grid_count_nonneg(g, m - 1, true);
    lemma_row_count_nonneg(g, m - 1, g[m - 1].len() as int, true);
    if i < m - 1 {
        lemma_no_removable_grid(g, m - 1, i, j);
    } else {
        lemma_no_removable_row(g, i, g[i].len() as int, j);
    }
}

/// A grid with no roll to take away is left as it is by a round.
proof fn lemma_fixpoint(g: Grid)
    requires
        removable_rolls_count(g) == 0,
    ensures
        step(g) == g,
{
    assert forall|i: int| 0 <= i < g.len() implies #[trigger] step(g)[i] == g[i] by {
        assert forall|j: int| 0 <= j < g[i].len() implies #[trigger] step(g)[i][j] == g[i][j] by {
            lemma_no_removable_grid(g, g.len() as int, i, j);
        }
        assert(step(g)[i] =~= g[i]);
    }
    assert(step(g) =~= g);
}

proof fn lemma_rounds_stay(g: Grid, r: nat, m: nat)
    requires
        r <= m,
        step(rounds(g, r)) == rounds(g, r),
    ensures
        rounds(g, m) == rounds(g, r),
    decreases m,
{
    if m > r {
        lemma_rounds_stay(g, r, (m - 1) as nat);
    }
}

/// The rolls taken away over rounds repeated until none can be taken.
pub open spec fn removed_until_stable(g: Grid) -> int {
    rolls(g) - rolls(rounds(g, rolls(g) as nat))
}

proof fn lemma_step_shape(g: Grid)
    ensures
        step(g).len() == g.len(),
        forall|k: int| 0 <= k < g.len() ==> (#[trigger] step(g)[k]).len() == g[k].len(),
{
}

fn remove_until_stable(g: &Vec<Vec<bool>>) -> (r: u128)
    requires
        g.len() < i64::MAX,
        forall|k: int| 0 <= k < g.len() ==> (#[trigger] g@[k]).len() < i64::MAX,
    ensures
        r == removed_until_stable(grid_view(g@)),
{
    let ghost g0 = grid_view(g@);
    assert forall|k: int| 0 <= k < g0.len() implies (#[trigger] g0[k]).len() < i64::MAX by {
        assert(g0[k] == g@[k]@);
    }
    let (first, c0) = step_grid(g);
    let mut cur: Vec<Vec<bool>> = first;
    let mut count: u128 = c0;
    let mut total: u128 = 0;
    let ghost mut r: nat = 1;
    proof {
        lemma_step_rolls(g0, g0.len() as int);
        lemma_grid_count_nonneg(g0, g0.len() as int, false);
        lemma_grid_count_nonneg(g0, g0.len() as int, true);
        lemma_grid_count_nonneg(step(g0), g0.len() as int, false);
        assert(rounds(g0, 1) == step(rounds(g0, 0)));
        lemma_grid_count_bound(g0, g0.len() as int);
    }
    while count > 0
        invariant
            cur.len() == g.len() < i64::MAX,
            forall|k: int| 0 <= k < cur.len() ==> (#[trigger] cur@[k]).len() == g@[k].len(),
            forall|k: int| 0 <= k < g.len() ==> (#[trigger] g@[k]).len() < i64::MAX,
            g0 == grid_view(g@),
            r >= 1,
            grid_view(cur@) == rounds(g0, r),
            count == rolls(rounds(g0, (r - 1) as nat)) - rolls(rounds(g0, r)),
            rolls(rounds(g0, r)) >= 0,
            total + count == rolls(g0) - rolls(rounds(g0, r)),
            r - 1 <= total,
            rolls(g0) <= g0.len() * 0x7fff_ffff_ffff_ffff,
            grid_view(cur@).len() == g0.len(),
        decreases rolls(grid_view(cur@)) + if count > 0 {
            1int
        } else {
            0int
        },
    {
        let ghost before = grid_view(cur@);
        let (next, c) = step_grid(&cur);
        proof {
            lemma_step_rolls(before, before.len() as int);
            lemma_grid_count_nonneg(before, before.len() as int, true);
            lemma_grid_count_nonneg(step(before), before.len() as int, false);
            lemma_step_shape(before);
            assert(rounds(g0, r + 1) == step(rounds(g0, r)));
        }
        assert(total + count <= 0x7fff_ffff_ffff_ffff * 0x7fff_ffff_ffff_ffff) by (nonlinear_arith)
            requires
                total + count <= rolls(g0),
                rolls(g0) <= g0.len() * 0x7fff_ffff_ffff_ffff,
                g0.len() < 0x7fff_ffff_ffff_ffff,
        ;
        total = total + count;
        cur = next;
        count = c;
        proof {
            r = r + 1;
        }
    }
    proof {
        let x = rounds(g0, (r - 1) as nat);
        assert(rounds(g0, r) == step(x));
        lemma_step_rolls(x, x.len() as int);
        lemma_rounds_len(g0, (r - 1) as nat);
        lemma_fixpoint(x);
        lemma_rounds_stay(g0, (r - 1) as nat, rolls(g0) as nat);
    }
    total
}

proof fn lemma_grid_count_bound(g: Grid, m: int)
    requires
        0 <= m <= g.len(),
        forall|k: int| 0 <= k < g.len() ==> (#[trigger] g[k]).len() < i64::MAX,
    ensures
        grid_count(g, m, false) <= m * 0x7fff_ffff_ffff_ffff,
    decreases m,
{
    if m > 0 {
        lemma_grid_count_bound(g, m - 1);
        lemma_row_count_nonneg(g, m - 1, g[m - 1].len() as int, false);
        assert(g[m - 1].len() < i64::MAX);
    }
}

proof fn lemma_rounds_len(g: Grid, n: nat)
    ensures
        rounds(g, n).len() == g.len(),
    decreases n,
{
    if n > 0 {
        lemma_rounds_len(g, (n - 1) as nat);
    }
}

/// The grid fits the index arithmetic of the solver.
pub open spec fn sizes_ok(g: Grid) -> bool {
    g.len() < i64::MAX && forall|k: int| 0 <= k < g.len() ==> (#[trigger] g[k]).len() < i64::MAX
}

fn check_sizes(g: &Vec<Vec<bool>>) -> (r: bool)
    ensures
        r == sizes_ok(grid_view(g@)),
        r ==> forall|k: int| 0 <= k < g.len() ==> (#[trigger] g@[k]).len() < i64::MAX,
{
    let ghost gv = grid_view(g@);
    if g.len() as u64 >= 0x7fff_ffff_ffff_ffffu64 {
        return false;
    }
    let mut i: usize = 0;
    while i < g.len()
        invariant
            i <= g.len(),
            gv == grid_view(g@),
            forall|k: int| 0 <= k < i ==> (#[trigger] g@[k]).len() < i64::MAX,
        decreases g.len() - i,
    {
        if g[i].len() as u64 >= 0x7fff_ffff_ffff_ffffu64 {
            assert(gv[i as int] == g@[i as int]@);
            return false;
        }
        i += 1;
    }
    assert forall|k: int| 0 <= k < gv.len() implies (#[trigger] gv[k]).len() < i64::MAX by {
        assert(gv[k] == g@[k]@);
    }
    true
}

impl Solver for Day4Solver {
    open spec fn holds_input(&self, input: Seq<char>) -> bool {
        grid_view(self.input@) == grid_of(input)
    }

    /// How many rolls can be taken away from the grid as it is.
    open spec fn answer_one(&self) -> Seq<char> {
        let g = grid_view(self.input@);
        if sizes_ok(g) {
            decimal_of(removable_rolls_count(g))
        } else {
            Seq::empty()
        }
    }

    /// How many rolls can be taken away in all, round after round.
    open spec fn answer_two(&self) -> Seq<char> {
        let g = grid_view(self.input@);
        if sizes_ok(g) {
            decimal_of(removed_until_stable(g))
        } else {
            Seq::empty()
        }
    }

    fn presolve(&mut self, input: &str) {
        self.input = parse_input(input);
    }

    fn solve_part_one(&mut self) -> (r: String) {
        if !check_sizes(&self.input) {
            return String::new();
        }
        let (_, n) = step_grid(&self.input);
        decimal_u128(n)
    }

    fn solve_part_two(&mut self) -> (r: String) {
        if !check_sizes(&self.input) {
            return String::new();
        }
        decimal_u128(remove_until_stable(&self.input))
    }
}

/// A solver with an empty grid.
pub fn solver() -> (r: Day4Solver)
    ensures
        r.input@.len() == 0,
{
    Day4Solver { input: Vec::new() }
}

} // verus!
