//! Banks of batteries, one line of digits each. Switching on batteries picks
//! digits in order; the joltage is the number they form.
use vstd::prelude::*;

use crate::solver::Solver;
use crate::text::{
    chars_of, decimal_of, decimal_u128, digit_value, is_digit, split_chars, split_on, views_of,
};

verus! {

pub open spec fn digits_of(line: Seq<char>) -> Seq<int> {
    line.map_values(|c: char| digit_value(c))
}

pub open spec fn digit_line(line: Seq<char>) -> bool {
    forall|i: int| 0 <= i < line.len() ==> is_digit(#[trigger] line[i])
}

/// The banks the lines describe, skipping empty lines; `None` when a line
/// holds anything but digits.
pub open spec fn banks_of(lines: Seq<Seq<char>>) -> Option<Seq<Seq<int>>>
    decreases lines.len(),
{
    if lines.len() == 0 {
        Some(Seq::empty())
    } else {
        match banks_of(lines.drop_last()) {
            Some(bs) => if lines.last().len() == 0 {
                Some(bs)
            } else if digit_line(lines.last()) {
                Some(bs.push(digits_of(lines.last())))
            } else {
                None
            },
            None => None,
        }
    }
}

pub open spec fn parse_banks(input: Seq<char>) -> Option<Seq<Seq<int>>> {
    banks_of(split_on(input, '\n'))
}

pub open spec fn max(a: int, b: int) -> int {
    if a >= b {
        a
    } else {
        b
    }
}

pub open spec fn pow10(n: nat) -> int
    decreases n,
{
    if n == 0 {
        1
    } else {
        10 * pow10((n - 1) as nat)
    }
}

/// The largest number that `k` digits of `s`, taken in order, form; `-1`
/// when `s` has fewer than `k` digits.
pub open spec fn best_of(s: Seq<int>, k: nat) -> int
    decreases s.len(),
{
    if k == 0 {
        0
    } else if s.len() < k {
        -1
    } else {
        max(best_of(s.drop_last(), k), best_of(s.drop_last(), (k - 1) as nat) * 10 + s.last())
    }
}

/// The best number of `k` digits of `s`, or 0 when `s` is shorter.
pub open spec fn best_or_zero(s: Seq<int>, k: nat) -> int {
    if s.len() < k {
        0
    } else {
        best_of(s, k)
    }
}

/// The sum, over the banks, of the best number of `k` digits of each.
pub open spec fn total_best(banks: Seq<Seq<int>>, k: nat) -> int
    decreases banks.len(),
{
    if banks.len() == 0 {
        0
    } else {
        total_best(banks.drop_last(), k) + best_or_zero(banks.last(), k)
    }
}

/// Every bank has at least `k` batteries.
pub open spec fn all_at_least(banks: Seq<Seq<int>>, k: nat) -> bool {
    forall|i: int| 0 <= i < banks.len() ==> (#[trigger] banks[i]).len() >= k
}

pub struct Day3Solver {
    pub input: Option<Vec<Vec<u8>>>,
}

pub open spec fn bank_view(b: Vec<u8>) -> Seq<int> {
    b@.map_values(|d: u8| d as int)
}

impl Day3Solver {
    pub open spec fn banks(&self) -> Option<Seq<Seq<int>>> {
        match self.input {
            Some(v) => Some(v@.map_values(|b: Vec<u8>| bank_view(b))),
            None => None,
        }
    }
}

proof fn lemma_banks_none_stays(ls: Seq<Seq<char>>, i: int)
    requires
        0 <= i <= ls.len(),
        banks_of(ls.subrange(0, i)) is None,
    ensures
        banks_of(ls) is None,
    decreases ls.len() - i,
{
    if i < ls.len() {
        assert(ls.subrange(0, i + 1).drop_last() =~= ls.subrange(0, i));
        lemma_banks_none_stays(ls, i + 1);
    } else {
        assert(ls.subrange(0, i) =~= ls);
    }
}

fn parse_input(input: &str) -> (r: Option<Vec<Vec<u8>>>)
    ensures
        match r {
            Some(v) => parse_banks(input@) == Some(v@.map_values(|b: Vec<u8>| bank_view(b))),
            None => parse_banks(input@) is None,
        },
{
    let cs = chars_of(input);
    let lines = split_chars(&cs, '\n');
    let ghost ls = views_of(lines@);
    let mut out: Vec<Vec<u8>> = Vec::new();
    let mut i: usize = 0;
    while i < lines.len()
        invariant
            i <= lines.len(),
            ls == views_of(lines@),
            ls == split_on(input@, '\n'),
            banks_of(ls.subrange(0, i as int)) == Some(
                out@.map_values(|b: Vec<u8>| bank_view(b)),
            ),
        decreases lines.len() - i,
    {
        let line = &lines[i];
        let ghost lv = ls[i as int];
        assert(ls.subrange(0, i + 1).drop_last() =~= ls.subrange(0, i as int));
        assert(ls.subrange(0, i + 1).last() == lv);
        assert(lv == line@);
        if line.len() > 0 {
            let mut bank: Vec<u8> = Vec::new();
            let mut j: usize = 0;
            while j < line.len()
                invariant
                    j <= line.len(),
                    i < lines.len(),
                    ls == views_of(lines@),
                    lv == ls[i as int],
                    ls == split_on(input@, '\n'),
                    lv == line@,
                    ls.subrange(0, i + 1).drop_last() == ls.subrange(0, i as int),
                    ls.subrange(0, i + 1).last() == lv,
                    banks_of(ls.subrange(0, i as int)) == Some(
                        out@.map_values(|b: Vec<u8>| bank_view(b)),
                    ),
                    digit_line(lv.subrange(0, j as int)),
                    bank_view(bank) == digits_of(lv.subrange(0, j as int)),
                decreases line.len() - j,
            {
                let c = line[j];
                if !('0' <= c && c <= '9') {
                    proof {
                        assert(!is_digit(lv[j as int]));
                        assert(!digit_line(lv));
                        lemma_banks_none_stays(ls, i + 1);
                    }
                    return None;
                }
                let dv = (c as u32 - 48) as u8;
                assert(dv as int == digit_value(c));
                let ghost before = bank_view(bank);
                bank.push(dv);
                assert(bank_view(bank) =~= before.push(dv as int));
                assert(lv.subrange(0, j + 1) =~= lv.subrange(0, j as int).push(c));
                assert(bank_view(bank) =~= digits_of(lv.subrange(0, j + 1)));
                j += 1;
            }
            assert(lv.subrange(0, line.len() as int) =~= lv);
            out.push(bank);
            assert(out@.map_values(|b: Vec<u8>| bank_view(b)) =~= out@.drop_last().map_values(
                |b: Vec<u8>| bank_view(b),
            ).push(digits_of(lv)));
        }
        i += 1;
    }
    assert(ls.subrange(0, ls.len() as int) =~= ls);
    Some(out)
}

proof fn lemma_best_bounds(s: Seq<int>, k: nat)
    requires
        forall|i: int| 0 <= i < s.len() ==> 0 <= #[trigger] s[i] <= 9,
    ensures
        best_of(s, k) < pow10(k),
        s.len() >= k ==> best_of(s, k) >= 0,
        s.len() < k ==> best_of(s, k) == -1,
    decreases s.len(),
{
    lemma_pow10_pos(k);
    if k > 0 && s.len() >= k {
        lemma_best_bounds(s.drop_last(), k);
        lemma_best_bounds(s.drop_last(), (k - 1) as nat);
        let b = best_of(s.drop_last(), (k - 1) as nat);
        assert(s.last() == s[s.len() - 1]);
        assert(b * 10 + s.last() < pow10(k)) by (nonlinear_arith)
            requires
                b < pow10((k - 1) as nat),
                pow10(k) == 10 * pow10((k - 1) as nat),
                s.last() <= 9,
        ;
    }
}

/// The best number of `k` digits of `bank`, for `k` up to 12, by filling a
/// table of the best for each count over longer and longer prefixes.
fn best_of_bank(bank: &Vec<u8>, k: usize) -> (r: i64)
    requires
        k <= 12,
        forall|i: int| 0 <= i < bank.len() ==> bank@[i] <= 9,
    ensures
        r == best_of(bank_view(*bank), k as nat),
{
    let ghost s = bank_view(*bank);
    let mut dp: Vec<i64> = Vec::new();
    dp.push(0);
    let mut j: usize = 1;
    while j <= k
        invariant
            1 <= j <= k + 1,
            k <= 12,
            dp.len() == j,
            dp[0] == 0,
            forall|t: int| 1 <= t < j ==> dp[t] == -1,
        decreases k + 1 - j,
    {
        dp.push(-1);
        j += 1;
    }
    proof {
        assert forall|t: int| 0 <= t <= k implies dp[t] == best_of(s.subrange(0, 0), t as nat) by {}
        reveal_with_fuel(pow10, 13);
    }
    let mut i: usize = 0;
    while i < bank.len()
        invariant
            i <= bank.len(),
            k <= 12,
            s == bank_view(*bank),
            forall|q: int| 0 <= q < bank.len() ==> bank@[q] <= 9,
            dp.len() == k + 1,
            forall|t: int| 0 <= t <= k ==> #[trigger] dp[t] == best_of(s.subrange(0, i as int), t as nat),
            pow10(12) == 1000000000000,
        decreases bank.len() - i,
    {
        let d = bank[i] as i64;
        let ghost pre = s.subrange(0, i as int);
        let ghost post = s.subrange(0, i + 1);
        proof {
            assert(post.drop_last() =~= pre);
            assert(post.last() == d);
            assert forall|q: int| 0 <= q < pre.len() implies 0 <= #[trigger] pre[q] <= 9 by {
                assert(pre[q] == bank@[q] as int);
            }
        }
        let mut t: usize = k;
        while t >= 1
            invariant
                t <= k <= 12,
                dp.len() == k + 1,
                post.len() == pre.len() + 1,
                post.drop_last() == pre,
                post.last() == d,
                0 <= d <= 9,
                forall|q: int| 0 <= q < pre.len() ==> 0 <= #[trigger] pre[q] <= 9,
                pow10(12) == 1000000000000,
                forall|u: int| 0 <= u <= t ==> #[trigger] dp[u] == best_of(pre, u as nat),
                forall|u: int| t < u <= k ==> #[trigger] dp[u] == best_of(post, u as nat),
            decreases t,
        {
            let prev = dp[t - 1];
            proof {
                lemma_best_bounds(pre, (t - 1) as nat);
                lemma_best_bounds(pre, t as nat);
                lemma_pow10_mono((t - 1) as nat, 11);
                assert(pow10(11) == 100000000000) by {
                    reveal_with_fuel(pow10, 12);
                }
            }
            if prev >= 0 {
                let cand = prev * 10 + d;
                if cand > dp[t] {
                    dp.set(t, cand);
                }
            }
            proof {
                if post.len() < t {
                    assert(pre.len() < t - 1);
                }
            }
            t -= 1;
        }
        i += 1;
    }
    assert(s.subrange(0, bank.len() as int) =~= s);
    dp[k]
}

proof fn lemma_pow10_pos(n: nat)
    ensures
        pow10(n) >= 1,
    decreases n,
{
    if n > 0 {
        lemma_pow10_pos((n - 1) as nat);
    }
}

proof fn lemma_pow10_mono(a: nat, b: nat)
    requires
        a <= b,
    ensures
        pow10(a) <= pow10(b),
        pow10(a) >= 1,
    decreases b,
{
    lemma_pow10_pos(a);
    if a < b {
        lemma_pow10_mono(a, (b - 1) as nat);
        lemma_pow10_pos((b - 1) as nat);
    }
}

/// The sum over `banks` of the best number of `k` digits of each.
fn total_of(banks: &Vec<Vec<u8>>, k: usize) -> (r: u128)
    requires
        k <= 12,
        forall|b: int, i: int|
            0 <= b < banks.len() && 0 <= i < banks@[b].len() ==> banks@[b]@[i] <= 9,
    ensures
        r == total_best(banks@.map_values(|b: Vec<u8>| bank_view(b)), k as nat),
{
    let ghost bs = banks@.map_values(|b: Vec<u8>| bank_view(b));
    let mut sum: u128 = 0;
    let mut i: usize = 0;
    proof {
        reveal_with_fuel(pow10, 13);
    }
    while i < banks.len()
        invariant
            i <= banks.len(),
            k <= 12,
            bs == banks@.map_values(|b: Vec<u8>| bank_view(b)),
            forall|b: int, q: int|
                0 <= b < banks.len() && 0 <= q < banks@[b].len() ==> banks@[b]@[q] <= 9,
            sum == total_best(bs.subrange(0, i as int), k as nat),
            sum <= i * 1000000000000,
            pow10(12) == 1000000000000,
        decreases banks.len() - i,
    {
        let bank = &banks[i];
        let ghost s = bank_view(*bank);
        proof {
            assert forall|q: int| 0 <= q < s.len() implies 0 <= #[trigger] s[q] <= 9 by {
                assert(banks@[i as int]@[q] <= 9);
            }
            lemma_best_bounds(s, k as nat);
            lemma_pow10_mono(k as nat, 12);
            assert(bs.subrange(0, i + 1).drop_last() =~= bs.subrange(0, i as int));
            assert(bs.subrange(0, i + 1).last() == s);
        }
        let v: i64 = if bank.len() < k {
            0
        } else {
            best_of_bank(bank, k)
        };
        assert(sum + v <= (i + 1) * 1000000000000) by (nonlinear_arith)
            requires
                sum <= i * 1000000000000,
                v < 1000000000000,
        ;
        sum = sum + v as u128;
        i += 1;
    }
    assert(bs.subrange(0, banks.len() as int) =~= bs);
    sum
}

fn all_digits_valid(v: &Vec<Vec<u8>>) -> (r: bool)
    ensures
        r == (forall|b: int, i: int|
            0 <= b < v.len() && 0 <= i < v@[b].len() ==> v@[b]@[i] <= 9),
{
    let mut b: usize = 0;
    while b < v.len()
        invariant
            b <= v.len(),
            forall|c: int, i: int| 0 <= c < b && 0 <= i < v@[c].len() ==> v@[c]@[i] <= 9,
        decreases v.len() - b,
    {
        let mut i: usize = 0;
        while i < v[b].len()
            invariant
                b < v.len(),
                i <= v@[b as int].len(),
                forall|c: int, j: int| 0 <= c < b && 0 <= j < v@[c].len() ==> v@[c]@[j] <= 9,
                forall|j: int| 0 <= j < i ==> v@[b as int]@[j] <= 9,
            decreases v@[b as int].len() - i,
        {
            if v[b][i] > 9 {
                return false;
            }
            i += 1;
        }
        b += 1;
    }
    true
}

fn all_long_enough(v: &Vec<Vec<u8>>, k: usize) -> (r: bool)
    ensures
        r == (forall|b: int| 0 <= b < v.len() ==> (#[trigger] v@[b]).len() >= k),
{
    let mut i: usize = 0;
    while i < v.len()
        invariant
            i <= v.len(),
            forall|b: int| 0 <= b < i ==> (#[trigger] v@[b]).len() >= k,
        decreases v.len() - i,
    {
        if v[i].len() < k {
            return false;
        }
        i += 1;
    }
    true
}

impl Day3Solver {
    pub open spec fn digits_ok(&self) -> bool {
        match self.input {
            Some(v) => forall|b: int, i: int|
                0 <= b < v.len() && 0 <= i < v@[b].len() ==> v@[b]@[i] <= 9,
            None => true,
        }
    }
}

impl Solver for Day3Solver {
    open spec fn holds_input(&self, input: Seq<char>) -> bool {
        self.banks() == parse_banks(input) && self.digits_ok()
    }

    /// The sum over the banks of the best two-digit joltage of each (0 for a
    /// bank of one battery).
    open spec fn answer_one(&self) -> Seq<char> {
        match self.banks() {
            Some(b) => if self.digits_ok() {
                decimal_of(total_best(b, 2))
            } else {
                Seq::empty()
            },
            None => Seq::empty(),
        }
    }

    /// The sum over the banks of the best twelve-digit joltage of each; no
    /// answer when a bank has fewer than twelve batteries.
    open spec fn answer_two(&self) -> Seq<char> {
        match self.banks() {
            Some(b) => if self.digits_ok() && all_at_least(b, 12) {
                decimal_of(total_best(b, 12))
            } else {
                Seq::empty()
            },
            None => Seq::empty(),
        }
    }

    fn presolve(&mut self, input: &str) {
        let parsed = parse_input(input);
        proof {
            if parsed is Some {
                let v = parsed->0;
                assert forall|b: int, i: int|
                    0 <= b < v.len() && 0 <= i < v@[b].len() implies v@[b]@[i] <= 9 by {
                    lemma_parsed_digits(input@, v@.map_values(|x: Vec<u8>| bank_view(x)), b, i);
                    assert(v@.map_values(|x: Vec<u8>| bank_view(x))[b][i] == v@[b]@[i] as int);
                }
            }
        }
        self.input = parsed;
    }

    fn solve_part_one(&mut self) -> (r: String) {
        match &self.input {
            Some(v) => if all_digits_valid(v) {
                decimal_u128(total_of(v, 2))
            } else {
                String::new()
            },
            None => String::new(),
        }
    }

    fn solve_part_two(&mut self) -> (r: String) {
        match &self.input {
            Some(v) => {
                if !all_digits_valid(v) {
                    return String::new();
                }
                if !all_long_enough(v, 12) {
                    proof {
                        let bs = v@.map_values(|x: Vec<u8>| bank_view(x));
                        let b = choose|b: int| 0 <= b < v.len() && v@[b].len() < 12;
                        assert(bs[b].len() < 12);
                    }
                    return String::new();
                }
                proof {
                    let bs = v@.map_values(|x: Vec<u8>| bank_view(x));
                    assert forall|b: int| 0 <= b < bs.len() implies (#[trigger] bs[b]).len() >= 12 by {
                        assert(v@[b].len() >= 12);
                    }
                }
                decimal_u128(total_of(v, 12))
            },
            None => String::new(),
        }
    }
}

/// The digits of parsed banks are digits.
proof fn lemma_parsed_digits(input: Seq<char>, bs: Seq<Seq<int>>, b: int, i: int)
    requires
        parse_banks(input) == Some(bs),
        0 <= b < bs.len(),
        0 <= i < bs[b].len(),
    ensures
        0 <= bs[b][i] <= 9,
{
    lemma_banks_digits(split_on(input, '\n'), bs, b, i);
}

proof fn lemma_banks_digits(ls: Seq<Seq<char>>, bs: Seq<Seq<int>>, b: int, i: int)
    requires
        banks_of(ls) == Some(bs),
        0 <= b < bs.len(),
        0 <= i < bs[b].len(),
    ensures
        0 <= bs[b][i] <= 9,
    decreases ls.len(),
{
    if ls.len() > 0 {
        let prev = banks_of(ls.drop_last())->0;
        if ls.last().len() == 0 {
            lemma_banks_digits(ls.drop_last(), bs, b, i);
        } else if b < prev.len() {
            assert(bs[b] == prev[b]);
            lemma_banks_digits(ls.drop_last(), prev, b, i);
        } else {
            assert(is_digit(ls.last()[i]));
        }
    }
}

/// A solver with no input yet.
pub fn solver() -> (r: Day3Solver)
    ensures
        r.input is None,
{
    Day3Solver { input: None }
}

} // verus!
