//! A dial of 100 positions, starting at 50, turned left (`L`) or right (`R`)
//! by the given number of clicks, one rotation per line.
use vstd::prelude::*;

use crate::solver::Solver;
use crate::text::{chars_of, decimal_of, decimal_u128, parse_digits, split_chars, split_on, u64_value, views_of};

verus! {

/// The rotation a line writes: `L` (negative) or `R` (positive) and a count
/// of clicks that fits in `i64`.
pub open spec fn rotation_of(line: Seq<char>) -> Option<int> {
    if line.len() > 0 && (line[0] == 'L' || line[0] == 'R') {
        match u64_value(line.drop_first()) {
            Some(m) => if m <= i64::MAX {
                Some(
                    if line[0] == 'L' {
                        -m
                    } else {
                        m
                    },
                )
            } else {
                None
            },
            None => None,
        }
    } else {
        None
    }
}

/// The rotations of the lines, skipping empty lines; `None` when a line is
/// not a rotation.
pub open spec fn rotations_of(lines: Seq<Seq<char>>) -> Option<Seq<int>>
    decreases lines.len(),
{
    if lines.len() == 0 {
        Some(Seq::empty())
    } else {
        match rotations_of(lines.drop_last()) {
            Some(rs) => if lines.last().len() == 0 {
                Some(rs)
            } else {
                match rotation_of(lines.last()) {
                    Some(r) => Some(rs.push(r)),
                    None => None,
                }
            },
            None => None,
        }
    }
}

pub open spec fn parse_rotations(input: Seq<char>) -> Option<Seq<int>> {
    rotations_of(split_on(input, '\n'))
}

pub open spec fn sum(r: Seq<int>) -> int
    decreases r.len(),
{
    if r.len() == 0 {
        0
    } else {
        sum(r.drop_last()) + r.last()
    }
}

/// The dial position, not yet reduced, after the rotations `r`.
pub open spec fn position_after(r: Seq<int>) -> int {
    50 + sum(r)
}

/// How many rotations of `r` end with the dial at 0.
pub open spec fn zero_stops(r: Seq<int>) -> int
    decreases r.len(),
{
    if r.len() == 0 {
        0
    } else {
        zero_stops(r.drop_last()) + if position_after(r) % 100 == 0 {
            1int
        } else {
            0int
        }
    }
}

/// How many of the first `n` clicks from `p`, each one step up (or down when
/// `up` is false), leave the dial at 0.
pub open spec fn zero_clicks(p: int, up: bool, n: nat) -> int
    decreases n,
{
    if n == 0 {
        0
    } else {
        zero_clicks(p, up, (n - 1) as nat) + if (if up {
            p + n
        } else {
            p - n
        }) % 100 == 0 {
            1int
        } else {
            0int
        }
    }
}

/// How many clicks of all the rotations `r` leave the dial at 0.
pub open spec fn zero_passes(r: Seq<int>) -> int
    decreases r.len(),
{
    if r.len() == 0 {
        0
    } else {
        let p = position_after(r.drop_last());
        let d = r.last();
        zero_passes(r.drop_last()) + zero_clicks(
            p,
            d >= 0,
            (if d >= 0 {
                d
            } else {
                -d
            }) as nat,
        )
    }
}

pub struct Day1Solver {
    pub input: Option<Vec<i64>>,
}

pub open spec fn ints_of(v: Seq<i64>) -> Seq<int> {
    v.map_values(|x: i64| x as int)
}

impl Day1Solver {
    pub open spec fn rotations(&self) -> Option<Seq<int>> {
        match self.input {
            Some(v) => Some(ints_of(v@)),
            None => None,
        }
    }
}

proof fn lemma_rotations_none_stays(ls: Seq<Seq<char>>, i: int)
    requires
        0 <= i <= ls.len(),
        rotations_of(ls.subrange(0, i)) is None,
    ensures
        rotations_of(ls) is None,
    decreases ls.len() - i,
{
    if i < ls.len() {
        assert(ls.subrange(0, i + 1).drop_last() =~= ls.subrange(0, i));
        lemma_rotations_none_stays(ls, i + 1);
    } else {
        assert(ls.subrange(0, i) =~= ls);
    }
}

fn parse_input(input: &str) -> (r: Option<Vec<i64>>)
    ensures
        match r {
            Some(v) => parse_rotations(input@) == Some(ints_of(v@)),
            None => parse_rotations(input@) is None,
        },
{
    let cs = chars_of(input);
    let lines = split_chars(&cs, '\n');
    let ghost ls = views_of(lines@);
    let mut out: Vec<i64> = Vec::new();
    let mut i: usize = 0;
    while i < lines.len()
        invariant
            i <= lines.len(),
            ls == views_of(lines@),
            ls == split_on(input@, '\n'),
            rotations_of(ls.subrange(0, i as int)) == Some(ints_of(out@)),
        decreases lines.len() - i,
    {
        let line = &lines[i];
        let ghost lv = ls[i as int];
        assert(ls.subrange(0, i + 1).drop_last() =~= ls.subrange(0, i as int));
        assert(ls.subrange(0, i + 1).last() == lv);
        assert(lv == line@);
        if line.len() > 0 {
            let c = line[0];
            if c != 'L' && c != 'R' {
                proof { lemma_rotations_none_stays(ls, i + 1); }
                return None;
            }
            assert(line@.subrange(1, line.len() as int) =~= lv.drop_first());
            match parse_digits(line, 1, line.len()) {
                Some(m) => {
                    if m > 9223372036854775807u64 {
                        proof { lemma_rotations_none_stays(ls, i + 1); }
                        return None;
                    }
                    let v: i64 = if c == 'L' {
                        0i64 - m as i64
                    } else {
                        m as i64
                    };
                    out.push(v);
                    assert(ints_of(out@) =~= ints_of(out@.drop_last()).push(v as int));
                },
                None => {
                    proof { lemma_rotations_none_stays(ls, i + 1); }
                    return None;
                },
            }
        }
        i += 1;
    }
    assert(ls.subrange(0, ls.len() as int) =~= ls);
    Some(out)
}

proof fn lemma_mod_step(p: int, q: int, up: bool)
    requires
        0 <= q < 100,
        q == p % 100,
    ensures
        (if up {
            if q == 99 {
                0
            } else {
                q + 1
            }
        } else {
            if q == 0 {
                99
            } else {
                q - 1
            }
        }) == (if up {
            p + 1
        } else {
            p - 1
        }) % 100,
{
}

/// Turns the dial `d` clicks from position `q` (reduced), returning the new
/// reduced position and how many clicks left it at 0.
fn turn(p: Ghost<int>, q: u64, d: i64) -> (r: (u64, u64))
    requires
        q < 100,
        q == p@ % 100,
    ensures
        r.0 < 100,
        r.0 == (p@ + d) % 100,
        r.1 == zero_clicks(
            p@,
            d >= 0,
            (if d >= 0 {
                d as int
            } else {
                -d
            }) as nat,
        ),
        r.1 <= (if d >= 0 {
            d as int
        } else {
            -d
        }),
{
    let up = d >= 0;
    let n: u64 = if up {
        d as u64
    } else {
        (0i128 - d as i128) as u64
    };
    let mut cur = q;
    let mut hits: u64 = 0;
    let mut k: u64 = 0;
    while k < n
        invariant
            k <= n,
            cur < 100,
            n == (if d >= 0 {
                d as int
            } else {
                -d
            }),
            up == (d >= 0),
            cur == (if up {
                p@ + k
            } else {
                p@ - k
            }) % 100,
            hits == zero_clicks(p@, up, k as nat),
            hits <= k,
        decreases n - k,
    {
        proof {
            lemma_mod_step(
                if up {
                    p@ + k
                } else {
                    p@ - k
                },
                cur as int,
                up,
            );
        }
        cur = if up {
            if cur == 99 {
                0
            } else {
                cur + 1
            }
        } else {
            if cur == 0 {
                99
            } else {
                cur - 1
            }
        };
        k += 1;
        if cur == 0 {
            hits += 1;
        }
    }
    (cur, hits)
}

/// The reduced position and both counts after the rotations `r`.
fn run(r: &Vec<i64>) -> (res: (u128, u128))
    ensures
        res.0 == zero_stops(ints_of(r@)),
        res.1 == zero_passes(ints_of(r@)),
{
    let ghost rs = ints_of(r@);
    let mut q: u64 = 50;
    let mut stops: u128 = 0;
    let mut passes: u128 = 0;
    let mut i: usize = 0;
    while i < r.len()
        invariant
            i <= r.len(),
            rs == ints_of(r@),
            q < 100,
            q == position_after(rs.subrange(0, i as int)) % 100,
            stops == zero_stops(rs.subrange(0, i as int)),
            passes == zero_passes(rs.subrange(0, i as int)),
            stops <= i,
            passes <= i * 0x8000_0000_0000_0000,
        decreases r.len() - i,
    {
        let d = r[i];
        let ghost pre = rs.subrange(0, i as int);
        let ghost post = rs.subrange(0, i + 1);
        assert(post.drop_last() =~= pre);
        assert(post.last() == d as int);
        let (nq, hits) = turn(Ghost(position_after(pre)), q, d);
        q = nq;
        if q == 0 {
            stops += 1;
        }
        assert(passes + hits <= (i + 1) * 0x8000_0000_0000_0000) by (nonlinear_arith)
            requires
                passes <= i * 0x8000_0000_0000_0000,
                hits <= 0x8000_0000_0000_0000,
        ;
        passes += hits as u128;
        i += 1;
    }
    assert(rs.subrange(0, r.len() as int) =~= rs);
    (stops, passes)
}

impl Solver for Day1Solver {
    open spec fn holds_input(&self, input: Seq<char>) -> bool {
        self.rotations() == parse_rotations(input)
    }

    open spec fn answer_one(&self) -> Seq<char> {
        match self.rotations() {
            Some(r) => decimal_of(zero_stops(r)),
            None => Seq::empty(),
        }
    }

    open spec fn answer_two(&self) -> Seq<char> {
        match self.rotations() {
            Some(r) => decimal_of(zero_passes(r)),
            None => Seq::empty(),
        }
    }

    fn presolve(&mut self, input: &str) {
        self.input = parse_input(input);
    }

    fn solve_part_one(&mut self) -> (r: String) {
        match &self.input {
            Some(v) => decimal_u128(run(v).0),
            None => String::new(),
        }
    }

    fn solve_part_two(&mut self) -> (r: String) {
        match &self.input {
            Some(v) => decimal_u128(run(v).1),
            None => String::new(),
        }
    }
}

/// A solver with no input yet.
pub fn solver() -> (r: Day1Solver)
    ensures
        r.input is None,
{
    Day1Solver { input: None }
}

} // verus!
