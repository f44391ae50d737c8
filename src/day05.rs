//! Ranges of fresh ingredient IDs (`first-last`, one per line), a blank
//! line, then the available IDs, one per line.
use vstd::prelude::*;

use interval::prelude::{Cardinality, Contains, ToIntervalSet};

use crate::autosubmit::{i64_value, parse_i64};
use crate::solver::Solver;
use crate::text::{
    chars_of, decimal_of, decimal_u64, parse_digits, split_chars, split_on, string_of, u64_value,
    views_of,
};

verus! {

/// A set of integers kept as sorted, disjoint intervals by the `interval`
/// crate's `IntervalSet<i64>`.
#[verifier::external_body]
pub struct FreshIds {
    set: interval::IntervalSet<i64>,
}

/// The integers a set holds.
pub uninterp spec fn interval_contents(s: FreshIds) -> Set<int>;

/// The integers of the ranges, each from its first to its last value.
pub open spec fn union_of(r: Seq<(int, int)>) -> Set<int> {
    Set::new(|x: int| exists|i: int| 0 <= i < r.len() && (#[trigger] r[i]).0 <= x <= r[i].1)
}

pub open spec fn ranges_view(v: Seq<(i64, i64)>) -> Seq<(int, int)> {
    v.map_values(|p: (i64, i64)| (p.0 as int, p.1 as int))
}

/// Relies on `IntervalSet::empty`: a set that holds no integer.
#[verifier::external_body]
fn empty_set() -> (r: FreshIds)
    ensures
        interval_contents(r) == Set::<int>::empty(),
{
    FreshIds { set: <interval::IntervalSet<i64> as interval::prelude::Empty>::empty() }
}

/// Relies on `ToIntervalSet::to_interval_set` for a `Vec` of pairs: the set
/// holds exactly the integers of the ranges. Its debug assertions ask for
/// ranges that are not empty and whose first value is above `i64::MIN`.
#[verifier::external_body]
fn interval_set_of(ranges: Vec<(i64, i64)>) -> (r: FreshIds)
    requires
        forall|i: int| 0 <= i < ranges.len() ==> i64::MIN < (#[trigger] ranges@[i]).0 <= ranges@[i].1,
    ensures
        interval_contents(r) == union_of(ranges_view(ranges@)),
{
    FreshIds { set: ranges.to_interval_set() }
}

/// Relies on `Contains::contains` of `IntervalSet`.
#[verifier::external_body]
fn set_contains(s: &FreshIds, x: i64) -> (r: bool)
    ensures
        r == interval_contents(*s).contains(x as int),
{
    s.set.contains(&x)
}

/// Relies on `Cardinality::size` of `IntervalSet`: how many integers the
/// set holds.
#[verifier::external_body]
fn set_size(s: &FreshIds) -> (r: u64)
    ensures
        r == interval_contents(*s).len(),
{
    s.set.size()
}

/// The range a line writes: two numbers within `i64` joined by `-`.
pub open spec fn range_line(line: Seq<char>) -> Option<(int, int)> {
    let ps = split_on(line, '-');
    if ps.len() == 2 {
        match (u64_value(ps[0]), u64_value(ps[1])) {
            (Some(a), Some(b)) => if a <= i64::MAX && b <= i64::MAX {
                Some((a, b))
            } else {
                None
            },
            _ => None,
        }
    } else {
        None
    }
}

pub open spec fn ranges_in(lines: Seq<Seq<char>>) -> Option<Seq<(int, int)>>
    decreases lines.len(),
{
    if lines.len() == 0 {
        Some(Seq::empty())
    } else {
        match (ranges_in(lines.drop_last()), range_line(lines.last())) {
            (Some(rs), Some(r)) => Some(rs.push(r)),
            _ => None,
        }
    }
}

/// The IDs of the lines, skipping empty lines.
pub open spec fn ids_in(lines: Seq<Seq<char>>) -> Option<Seq<int>>
    decreases lines.len(),
{
    if lines.len() == 0 {
        Some(Seq::empty())
    } else {
        match ids_in(lines.drop_last()) {
            Some(ids) => if lines.last().len() == 0 {
                Some(ids)
            } else {
                match i64_value(lines.last()) {
                    Some(v) => Some(ids.push(v)),
                    None => None,
                }
            },
            None => None,
        }
    }
}

/// Line `k` is the first empty line.
pub open spec fn is_separator(lines: Seq<Seq<char>>, k: int) -> bool {
    0 <= k < lines.len() && lines[k].len() == 0 && forall|j: int|
        0 <= j < k ==> (#[trigger] lines[j]).len() > 0
}

/// The ranges before the first empty line and the IDs after it; `None`
/// without an empty line or when a line does not parse.
pub open spec fn parse_kitchen(input: Seq<char>) -> Option<(Seq<(int, int)>, Seq<int>)> {
    let ls = split_on(input, '\n');
    if exists|k: int| is_separator(ls, k) {
        let k = choose|k: int| is_separator(ls, k);
        match (ranges_in(ls.subrange(0, k)), ids_in(ls.subrange(k + 1, ls.len() as int))) {
            (Some(r), Some(a)) => Some((r, a)),
            _ => None,
        }
    } else {
        None
    }
}

/// How many entries of `ids` lie in `s`.
pub open spec fn count_in(ids: Seq<int>, s: Set<int>) -> int
    decreases ids.len(),
{
    if ids.len() == 0 {
        0
    } else {
        count_in(ids.drop_last(), s) + if s.contains(ids.last()) {
            1int
        } else {
            0int
        }
    }
}

proof fn lemma_union_push(s: Seq<(int, int)>, r: (int, int))
    ensures
        union_of(s.push(r)) == union_of(s).union(Set::new(|x: int| r.0 <= x <= r.1)),
{
    let t = s.push(r);
    assert forall|x: int| #[trigger] union_of(t).contains(x) == union_of(s).union(
        Set::new(|y: int| r.0 <= y <= r.1),
    ).contains(x) by {
        if union_of(t).contains(x) {
            let i = choose|i: int| 0 <= i < t.len() && (#[trigger] t[i]).0 <= x <= t[i].1;
            if i < s.len() {
                assert(t[i] == s[i]);
            }
        }
        if union_of(s).contains(x) {
            let i = choose|i: int| 0 <= i < s.len() && (#[trigger] s[i]).0 <= x <= s[i].1;
            assert(t[i] == s[i]);
        }
        if r.0 <= x <= r.1 {
            assert(t[s.len() as int] == r);
        }
    }
    assert(union_of(t) =~= union_of(s).union(Set::new(|x: int| r.0 <= x <= r.1)));
}

fn parse_range_line(line: &Vec<char>) -> (r: Option<(i64, i64)>)
    ensures
        match r {
            Some(p) => range_line(line@) == Some((p.0 as int, p.1 as int)),
            None => range_line(line@) is None,
        },
{
    let parts = split_chars(line, '-');
    assert(views_of(parts@).len() == parts.len());
    if parts.len() != 2 {
        return None;
    }
    assert(views_of(parts@)[0] == parts[0]@);
    assert(views_of(parts@)[1] == parts[1]@);
    assert(parts[0]@.subrange(0, parts[0].len() as int) =~= parts[0]@);
    assert(parts[1]@.subrange(0, parts[1].len() as int) =~= parts[1]@);
    match (parse_digits(&parts[0], 0, parts[0].len()), parse_digits(&parts[1], 0, parts[1].len())) {
        (Some(a), Some(b)) => if a <= 9223372036854775807u64 && b <= 9223372036854775807u64 {
            Some((a as i64, b as i64))
        } else {
            None
        },
        _ => None,
    }
}

proof fn lemma_ranges_none_stays(ls: Seq<Seq<char>>, i: int)
    requires
        0 <= i <= ls.len(),
        ranges_in(ls.subrange(0, i)) is None,
    ensures
        ranges_in(ls) is None,
    decreases ls.len() - i,
{
    if i < ls.len() {
        assert(ls.subrange(0, i + 1).drop_last() =~= ls.subrange(0, i));
        lemma_ranges_none_stays(ls, i + 1);
    } else {
        assert(ls.subrange(0, i) =~= ls);
    }
}

proof fn lemma_ids_none_stays(ls: Seq<Seq<char>>, i: int)
    requires
        0 <= i <= ls.len(),
        ids_in(ls.subrange(0, i)) is None,
    ensures
        ids_in(ls) is None,
    decreases ls.len() - i,
{
    if i < ls.len() {
        assert(ls.subrange(0, i + 1).drop_last() =~= ls.subrange(0, i));
        lemma_ids_none_stays(ls, i + 1);
    } else {
        assert(ls.subrange(0, i) =~= ls);
    }
}

pub struct Day5Solver {
    pub fresh: FreshIds,
    pub available: Vec<i64>,
    pub well_formed: bool,
}

impl Day5Solver {
    pub open spec fn ids(&self) -> Seq<int> {
        self.available@.map_values(|x: i64| x as int)
    }
}

/// The ranges (those that are not empty, with the set of all their IDs) and
/// the available IDs of the input.
fn parse_input(input: &str) -> (r: Option<(Vec<(i64, i64)>, Vec<i64>)>)
    ensures
        match r {
            Some(p) => exists|rs: Seq<(int, int)>|
                parse_kitchen(input@) == Some((rs, p.1@.map_values(|x: i64| x as int)))
                    && #[trigger] union_of(rs) == union_of(ranges_view(p.0@))
                    && forall|i: int| 0 <= i < p.0.len() ==> (#[trigger] p.0@[i]).0 <= p.0@[i].1 && 0 <= p.0@[i].0,
            None => parse_kitchen(input@) is None,
        },
{
    let cs = chars_of(input);
    let lines = split_chars(&cs, '\n');
    let ghost ls = views_of(lines@);
    let mut k: usize = 0;
    while k < lines.len() && lines[k].len() > 0
        invariant
            k <= lines.len(),
            ls == views_of(lines@),
            forall|j: int| 0 <= j < k ==> (#[trigger] ls[j]).len() > 0,
        decreases lines.len() - k,
    {
        k += 1;
    }
    if k == lines.len() {
        assert(!exists|q: int| is_separator(ls, q)) by {
            if exists|q: int| is_separator(ls, q) {
                let q = choose|q: int| is_separator(ls, q);
                assert(ls[q].len() > 0);
            }
        }
        return None;
    }
    proof {
        assert(ls[k as int] == lines[k as int]@);
        assert(is_separator(ls, k as int));
        let q = choose|q: int| is_separator(ls, q);
        if q < k {
            assert(ls[q].len() > 0);
        } else if q > k {
            assert(ls[k as int].len() > 0);
        }
        assert(q == k);
    }
    let ghost head = ls.subrange(0, k as int);
    let ghost tail = ls.subrange(k + 1, ls.len() as int);
    let mut ranges: Vec<(i64, i64)> = Vec::new();
    let ghost mut all: Seq<(int, int)> = Seq::empty();
    let mut i: usize = 0;
    while i < k
        invariant
            i <= k < lines.len(),
            ls == views_of(lines@),
            ls == split_on(input@, '\n'),
            is_separator(ls, k as int),
            (choose|q: int| is_separator(ls, q)) == k,
            head == ls.subrange(0, k as int),
            ranges_in(head.subrange(0, i as int)) == Some(all),
            union_of(all) == union_of(ranges_view(ranges@)),
            forall|q: int| 0 <= q < ranges.len() ==> (#[trigger] ranges@[q]).0 <= ranges@[q].1 && 0 <= ranges@[q].0,
        decreases k - i,
    {
        assert(head.subrange(0, i + 1).drop_last() =~= head.subrange(0, i as int));
        assert(head.subrange(0, i + 1).last() == lines[i as int]@);
        match parse_range_line(&lines[i]) {
            Some((a, b)) => {
                proof {
                    lemma_union_push(all, (a as int, b as int));
                    all = all.push((a as int, b as int));
                }
                if a <= b {
                    let ghost before = ranges_view(ranges@);
                    ranges.push((a, b));
                    assert(ranges_view(ranges@) =~= before.push((a as int, b as int)));
                    proof { lemma_union_push(before, (a as int, b as int)); }
                } else {
                    assert(Set::new(|x: int| a <= x <= b) =~= Set::<int>::empty());
                    assert(union_of(ranges_view(ranges@)).union(Set::<int>::empty()) =~= union_of(ranges_view(ranges@)));
                }
            },
            None => {
                proof { lemma_ranges_none_stays(head, i + 1); }
                return None;
            },
        }
        i += 1;
    }
    assert(head.subrange(0, k as int) =~= head);
    let mut ids: Vec<i64> = Vec::new();
    let mut j: usize = k + 1;
    while j < lines.len()
        invariant
            k < j <= lines.len(),
            ls == views_of(lines@),
            ls == split_on(input@, '\n'),
            is_separator(ls, k as int),
            (choose|q: int| is_separator(ls, q)) == k,
            ranges_in(head) == Some(all),
            head == ls.subrange(0, k as int),
            tail == ls.subrange(k + 1, ls.len() as int),
            ids_in(tail.subrange(0, j - k - 1)) == Some(ids@.map_values(|x: i64| x as int)),
        decreases lines.len() - j,
    {
        let ghost t = (j - k - 1) as int;
        assert(tail.subrange(0, t + 1).drop_last() =~= tail.subrange(0, t));
        assert(tail.subrange(0, t + 1).last() == lines[j as int]@);
        let line = &lines[j];
        if line.len() > 0 {
            let text = string_of(line, 0, line.len());
            assert(line@.subrange(0, line.len() as int) =~= line@);
            match parse_i64(text.as_str()) {
                Some(v) => {
                    ids.push(v);
                    assert(ids@.map_values(|x: i64| x as int) =~= ids@.drop_last().map_values(|x: i64| x as int).push(v as int));
                },
                None => {
                    proof { lemma_ids_none_stays(tail, t + 1); }
                    return None;
                },
            }
        }
        j += 1;
    }
    assert(tail.subrange(0, tail.len() as int) =~= tail);
    Some((ranges, ids))
}

fn count_fresh(fresh: &FreshIds, ids: &Vec<i64>) -> (r: u64)
    ensures
        r == count_in(ids@.map_values(|x: i64| x as int), interval_contents(*fresh)),
{
    let ghost s = ids@.map_values(|x: i64| x as int);
    let mut n: u64 = 0;
    let mut i: usize = 0;
    while i < ids.len()
        invariant
            i <= ids.len(),
            s == ids@.map_values(|x: i64| x as int),
            n == count_in(s.subrange(0, i as int), interval_contents(*fresh)),
            n <= i,
        decreases ids.len() - i,
    {
        assert(s.subrange(0, i + 1).drop_last() =~= s.subrange(0, i as int));
        assert(s.subrange(0, i + 1).last() == ids@[i as int] as int);
        if set_contains(fresh, ids[i]) {
            n += 1;
        }
        i += 1;
    }
    assert(s.subrange(0, ids.len() as int) =~= s);
    n
}

impl Solver for Day5Solver {
    open spec fn holds_input(&self, input: Seq<char>) -> bool {
        match parse_kitchen(input) {
            Some((rs, ids)) => self.well_formed && interval_contents(self.fresh) == union_of(rs)
                && self.ids() == ids,
            None => !self.well_formed,
        }
    }

    /// How many available IDs are fresh.
    open spec fn answer_one(&self) -> Seq<char> {
        if self.well_formed {
            decimal_of(count_in(self.ids(), interval_contents(self.fresh)))
        } else {
            Seq::empty()
        }
    }

    /// How many IDs the fresh ranges hold in all.
    open spec fn answer_two(&self) -> Seq<char> {
        if self.well_formed {
            decimal_of(interval_contents(self.fresh).len() as int)
        } else {
            Seq::empty()
        }
    }

    fn presolve(&mut self, input: &str) {
        match parse_input(input) {
            Some((ranges, ids)) => {
                self.fresh = interval_set_of(ranges);
                self.available = ids;
                self.well_formed = true;
            },
            None => {
                self.fresh = empty_set();
                self.available = Vec::new();
                self.well_formed = false;
            },
        }
    }

    fn solve_part_one(&mut self) -> (r: String) {
        if !self.well_formed {
            return String::new();
        }
        let n = count_fresh(&self.fresh, &self.available);
        decimal_u64(n)
    }

    fn solve_part_two(&mut self) -> (r: String) {
        if !self.well_formed {
            return String::new();
        }
        decimal_u64(set_size(&self.fresh))
    }
}

/// A solver with no input yet.
pub fn solver() -> (r: Day5Solver)
    ensures
        !r.well_formed,
        interval_contents(r.fresh) == Set::<int>::empty(),
{
    Day5Solver { fresh: empty_set(), available: Vec::new(), well_formed: false }
}

} // verus!
