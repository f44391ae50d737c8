//! A worksheet of problems side by side: rows of numbers, then a row of
//! operators (`*` or `+`) under them.
use vstd::prelude::*;

use crate::day07::max_len;
use crate::solver::Solver;
use crate::text::{
    chars_of, decimal_of, decimal_u128, group_view, is_digit, match_view, parse_digits,
    regex_all_captures, regex_captures_all, split_chars, split_on, string_of, u64_value, views_of,
};

verus! {

/// The text of a whole match.
pub open spec fn whole_match(m: Seq<Option<Seq<char>>>) -> Seq<char> {
    if m.len() > 0 && m[0] is Some {
        m[0]->0
    } else {
        Seq::empty()
    }
}

/// The texts of the successive matches of `pattern` in `text`.
pub open spec fn token_texts(pattern: Seq<char>, text: Seq<char>) -> Option<Seq<Seq<char>>> {
    match regex_all_captures(pattern, text) {
        Some(ms) => Some(ms.map_values(|m: Seq<Option<Seq<char>>>| whole_match(m))),
        None => None,
    }
}

pub open spec fn texts_view(r: Option<Vec<String>>) -> Option<Seq<Seq<char>>> {
    match r {
        Some(v) => Some(v@.map_values(|s: String| s@)),
        None => None,
    }
}

fn find_tokens(pattern: &str, text: &str) -> (r: Option<Vec<String>>)
    ensures
        texts_view(r) == token_texts(pattern@, text@),
{
    let ms = match regex_captures_all(pattern, text) {
        Some(ms) => ms,
        None => return None,
    };
    let ghost mv = ms@.map_values(|m: Vec<Option<String>>| match_view(m));
    let mut out: Vec<String> = Vec::new();
    let mut i: usize = 0;
    while i < ms.len()
        invariant
            i <= ms.len(),
            mv == ms@.map_values(|m: Vec<Option<String>>| match_view(m)),
            out@.map_values(|s: String| s@) == mv.map_values(
                |m: Seq<Option<Seq<char>>>| whole_match(m),
            ).subrange(0, i as int),
        decreases ms.len() - i,
    {
        let m = &ms[i];
        assert(mv[i as int] == match_view(*m));
        let s = if m.len() > 0 {
            assert(match_view(*m)[0] == group_view(m@[0]));
            match &m[0] {
                Some(g) => g.clone(),
                None => String::new(),
            }
        } else {
            String::new()
        };
        let ghost before = out@.map_values(|s: String| s@);
        out.push(s);
        assert(out@.map_values(|s: String| s@) =~= before.push(s@));
        assert(mv.map_values(|m: Seq<Option<Seq<char>>>| whole_match(m)).subrange(0, i + 1)
            =~= mv.map_values(|m: Seq<Option<Seq<char>>>| whole_match(m)).subrange(0, i as int).push(
            whole_match(mv[i as int]),
        ));
        i += 1;
    }
    assert(mv.map_values(|m: Seq<Option<Seq<char>>>| whole_match(m)).subrange(0, ms.len() as int)
        =~= mv.map_values(|m: Seq<Option<Seq<char>>>| whole_match(m)));
    Some(out)
}

/// The lines of the text: the pieces between line breaks, without the empty
/// piece after a final line break.
pub open spec fn text_lines(s: Seq<char>) -> Seq<Seq<char>> {
    let p = split_on(s, '\n');
    if p.len() > 1 && p.last().len() == 0 {
        p.drop_last()
    } else {
        p
    }
}

pub open spec fn is_blank(c: char) -> bool {
    c == ' ' || c == '\t' || c == '\r'
}

/// The first character of the line that is not blank is a decimal digit.
pub open spec fn starts_with_digit(line: Seq<char>) -> bool {
    exists|k: int|
        0 <= k < line.len() && is_digit(#[trigger] line[k]) && forall|q: int|
            0 <= q < k ==> is_blank(#[trigger] line[q])
}

/// The line holds a character that is not blank.
pub open spec fn has_content(line: Seq<char>) -> bool {
    exists|k: int| 0 <= k < line.len() && !is_blank(#[trigger] line[k])
}

/// The number of leading lines that start with a digit.
pub open spec fn number_rows(lines: Seq<Seq<char>>, k: int) -> bool {
    0 <= k <= lines.len() && (forall|q: int| 0 <= q < k ==> starts_with_digit(#[trigger] lines[q]))
        && (k == lines.len() || !starts_with_digit(lines[k]))
}

/// The numbers of a row: the decimal tokens the pattern finds, each within
/// `i64`.
pub open spec fn tokens_value(ts: Seq<Seq<char>>) -> Option<Seq<int>>
    decreases ts.len(),
{
    if ts.len() == 0 {
        Some(Seq::empty())
    } else {
        match (tokens_value(ts.drop_last()), u64_value(ts.last())) {
            (Some(vs), Some(v)) => if v <= i64::MAX {
                Some(vs.push(v))
            } else {
                None
            },
            _ => None,
        }
    }
}

pub open spec fn number_pattern() -> Seq<char> {
    "\\d+"@
}

pub open spec fn operator_pattern() -> Seq<char> {
    "\\S"@
}

/// The numbers of the first `n` rows.
pub open spec fn rows_values(lines: Seq<Seq<char>>, n: int) -> Option<Seq<Seq<int>>>
    decreases n,
{
    if n <= 0 {
        Some(Seq::empty())
    } else {
        match (rows_values(lines, n - 1), token_texts(number_pattern(), lines[n - 1])) {
            (Some(rs), Some(ts)) => match tokens_value(ts) {
                Some(vs) => Some(rs.push(vs)),
                None => None,
            },
            _ => None,
        }
    }
}

pub open spec fn first_char(t: Seq<char>) -> char {
    if t.len() > 0 {
        t[0]
    } else {
        ' '
    }
}

/// The result of problem `i` over the first `n` rows, with checked `u128`
/// arithmetic: `None` when a row lacks the column or a partial result does
/// not fit.
pub open spec fn column_value(rows: Seq<Seq<int>>, i: int, n: int, times: bool) -> Option<int>
    decreases n,
{
    if n <= 0 {
        Some(
            if times {
                1
            } else {
                0
            },
        )
    } else {
        match column_value(rows, i, n - 1, times) {
            Some(a) => if 0 <= i < rows[n - 1].len() {
                let r = if times {
                    a * rows[n - 1][i]
                } else {
                    a + rows[n - 1][i]
                };
                if r <= u128::MAX {
                    Some(r)
                } else {
                    None
                }
            } else {
                None
            },
            None => None,
        }
    }
}

/// The grand total of the first `n` problems, with checked `u128`
/// arithmetic; `None` for an operator other than `*` and `+`.
pub open spec fn grand_total(rows: Seq<Seq<int>>, ops: Seq<char>, n: int) -> Option<int>
    decreases n,
{
    if n <= 0 {
        Some(0)
    } else {
        match grand_total(rows, ops, n - 1) {
            Some(s) => if ops[n - 1] == '*' || ops[n - 1] == '+' {
                match column_value(rows, n - 1, rows.len() as int, ops[n - 1] == '*') {
                    Some(v) => if s + v <= u128::MAX {
                        Some(s + v)
                    } else {
                        None
                    },
                    None => None,
                }
            } else {
                None
            },
            None => None,
        }
    }
}

/// The answer read row-wise: the leading lines that start with a digit
/// hold the numbers, the next line (not blank) the operators.
pub open spec fn part_one_of(input: Seq<char>) -> Option<int> {
    let lines = text_lines(input);
    let k = choose|k: int| number_rows(lines, k);
    if k < lines.len() && has_content(lines[k]) {
        match (rows_values(lines, k), token_texts(operator_pattern(), lines[k])) {
            (Some(rows), Some(ts)) => grand_total(
                rows,
                ts.map_values(|t: Seq<char>| first_char(t)),
                ts.len() as int,
            ),
            _ => None,
        }
    } else {
        None
    }
}

pub open spec fn opt_int(o: Option<u128>) -> Option<int> {
    match o {
        Some(v) => Some(v as int),
        None => None,
    }
}

pub open spec fn rows_view(v: Seq<Vec<u64>>) -> Seq<Seq<int>> {
    v.map_values(|r: Vec<u64>| r@.map_values(|x: u64| x as int))
}

fn text_lines_of(cs: &Vec<char>) -> (r: Vec<Vec<char>>)
    ensures
        views_of(r@) == text_lines(cs@),
{
    let mut p = split_chars(cs, '\n');
    assert(views_of(p@).len() == p.len());
    if p.len() > 1 && p[p.len() - 1].len() == 0 {
        let ghost before = views_of(p@);
        assert(before.last() == p[p.len() - 1]@);
        p.pop();
        assert(views_of(p@) =~= before.drop_last());
    }
    p
}

fn line_starts_with_digit(line: &Vec<char>) -> (r: bool)
    ensures
        r == starts_with_digit(line@),
{
    let mut k: usize = 0;
    while k < line.len() && (line[k] == ' ' || line[k] == '\t' || line[k] == '\r')
        invariant
            k <= line.len(),
            forall|q: int| 0 <= q < k ==> is_blank(#[trigger] line@[q]),
        decreases line.len() - k,
    {
        k += 1;
    }
    if k < line.len() && '0' <= line[k] && line[k] <= '9' {
        assert(is_digit(line@[k as int]));
        true
    } else {
        assert(!starts_with_digit(line@)) by {
            if starts_with_digit(line@) {
                let w = choose|w: int|
                    0 <= w < line@.len() && is_digit(#[trigger] line@[w]) && forall|q: int|
                        0 <= q < w ==> is_blank(#[trigger] line@[q]);
                if w < k {
                    assert(is_blank(line@[w]));
                } else if w > k {
                    assert(is_blank(line@[k as int]));
                }
            }
        }
        false
    }
}

fn line_has_content(line: &Vec<char>) -> (r: bool)
    ensures
        r == has_content(line@),
{
    let mut k: usize = 0;
    while k < line.len()
        invariant
            k <= line.len(),
            forall|q: int| 0 <= q < k ==> is_blank(#[trigger] line@[q]),
        decreases line.len() - k,
    {
        if !(line[k] == ' ' || line[k] == '\t' || line[k] == '\r') {
            return true;
        }
        k += 1;
    }
    false
}

fn tokens_to_values(ts: &Vec<String>) -> (r: Option<Vec<u64>>)
    ensures
        match r {
            Some(v) => tokens_value(ts@.map_values(|s: String| s@)) == Some(v@.map_values(|x: u64| x as int)),
            None => tokens_value(ts@.map_values(|s: String| s@)) is None,
        },
{
    let ghost tv = ts@.map_values(|s: String| s@);
    let mut out: Vec<u64> = Vec::new();
    let mut i: usize = 0;
    while i < ts.len()
        invariant
            i <= ts.len(),
            tv == ts@.map_values(|s: String| s@),
            tokens_value(tv.subrange(0, i as int)) == Some(out@.map_values(|x: u64| x as int)),
        decreases ts.len() - i,
    {
        assert(tv.subrange(0, i + 1).drop_last() =~= tv.subrange(0, i as int));
        assert(tv.subrange(0, i + 1).last() == ts[i as int]@);
        let cs = chars_of(ts[i].as_str());
        assert(cs@.subrange(0, cs.len() as int) =~= cs@);
        match parse_digits(&cs, 0, cs.len()) {
            Some(v) => {
                if v > 9223372036854775807u64 {
                    proof { lemma_tokens_none_stays(tv, i + 1); }
                    return None;
                }
                out.push(v);
                assert(out@.map_values(|x: u64| x as int) =~= out@.drop_last().map_values(|x: u64| x as int).push(v as int));
            },
            None => {
                proof { lemma_tokens_none_stays(tv, i + 1); }
                return None;
            },
        }
        i += 1;
    }
    assert(tv.subrange(0, ts.len() as int) =~= tv);
    Some(out)
}

proof fn lemma_tokens_none_stays(ts: Seq<Seq<char>>, i: int)
    requires
        0 <= i <= ts.len(),
        tokens_value(ts.subrange(0, i)) is None,
    ensures
        tokens_value(ts) is None,
    decreases ts.len() - i,
{
    if i < ts.len() {
        assert(ts.subrange(0, i + 1).drop_last() =~= ts.subrange(0, i));
        lemma_tokens_none_stays(ts, i + 1);
    } else {
        assert(ts.subrange(0, i) =~= ts);
    }
}

proof fn lemma_column_none_stays(rows: Seq<Seq<int>>, i: int, n: int, m: int, times: bool)
    requires
        0 <= n <= m <= rows.len(),
        column_value(rows, i, n, times) is None,
    ensures
        column_value(rows, i, m, times) is None,
    decreases m - n,
{
    if n < m {
        lemma_column_none_stays(rows, i, n + 1, m, times);
    }
}

fn column_value_of(rows: &Vec<Vec<u64>>, i: usize, times: bool) -> (r: Option<u128>)
    ensures
        opt_int(r) == column_value(rows_view(rows@), i as int, rows.len() as int, times),
{
    let ghost rv = rows_view(rows@);
    let mut acc: u128 = if times {
        1
    } else {
        0
    };
    let mut n: usize = 0;
    while n < rows.len()
        invariant
            n <= rows.len(),
            rv == rows_view(rows@),
            column_value(rv, i as int, n as int, times) == Some(acc as int),
        decreases rows.len() - n,
    {
        let row = &rows[n];
        assert(rv[n as int] == row@.map_values(|x: u64| x as int));
        if i >= row.len() {
            proof { lemma_column_none_stays(rv, i as int, n + 1, rows.len() as int, times); }
            return None;
        }
        let v = row[i] as u128;
        assert(rv[n as int][i as int] == v);
        let next = if times {
            acc.checked_mul(v)
        } else {
            acc.checked_add(v)
        };
        match next {
            Some(x) => {
                acc = x;
            },
            None => {
                proof { lemma_column_none_stays(rv, i as int, n + 1, rows.len() as int, times); }
                return None;
            },
        }
        n += 1;
    }
    Some(acc)
}

proof fn lemma_total_none_stays(rows: Seq<Seq<int>>, ops: Seq<char>, n: int, m: int)
    requires
        0 <= n <= m,
        grand_total(rows, ops, n) is None,
    ensures
        grand_total(rows, ops, m) is None,
    decreases m - n,
{
    if n < m {
        lemma_total_none_stays(rows, ops, n + 1, m);
    }
}

fn grand_total_of(rows: &Vec<Vec<u64>>, ops: &Vec<char>) -> (r: Option<u128>)
    ensures
        opt_int(r) == grand_total(rows_view(rows@), ops@, ops.len() as int),
{
    let ghost rv = rows_view(rows@);
    let mut s: u128 = 0;
    let mut n: usize = 0;
    while n < ops.len()
        invariant
            n <= ops.len(),
            rv == rows_view(rows@),
            grand_total(rv, ops@, n as int) == Some(s as int),
        decreases ops.len() - n,
    {
        let op = ops[n];
        if op != '*' && op != '+' {
            proof { lemma_total_none_stays(rv, ops@, n + 1, ops.len() as int); }
            return None;
        }
        assert(rv.len() == rows.len());
        match column_value_of(rows, n, op == '*') {
            Some(v) => match s.checked_add(v) {
                Some(x) => {
                    s = x;
                },
                None => {
                    proof { lemma_total_none_stays(rv, ops@, n + 1, ops.len() as int); }
                    return None;
                },
            },
            None => {
                proof { lemma_total_none_stays(rv, ops@, n + 1, ops.len() as int); }
                return None;
            },
        }
        n += 1;
    }
    Some(s)
}

proof fn lemma_rows_none_stays(lines: Seq<Seq<char>>, n: int, m: int)
    requires
        0 <= n <= m,
        rows_values(lines, n) is None,
    ensures
        rows_values(lines, m) is None,
    decreases m - n,
{
    if n < m {
        lemma_rows_none_stays(lines, n + 1, m);
    }
}

fn part_one(input: &str) -> (r: Option<u128>)
    ensures
        opt_int(r) == part_one_of(input@),
{
    let cs = chars_of(input);
    let lines = text_lines_of(&cs);
    let ghost lv = views_of(lines@);
    assert(lv.len() == lines.len());
    let mut k: usize = 0;
    while k < lines.len() && line_starts_with_digit(&lines[k])
        invariant
            k <= lines.len(),
            lv == views_of(lines@),
            forall|q: int| 0 <= q < k ==> starts_with_digit(#[trigger] lv[q]),
        decreases lines.len() - k,
    {
        assert(lv[k as int] == lines[k as int]@);
        k += 1;
    }
    proof {
        if k < lines.len() {
            assert(lv[k as int] == lines[k as int]@);
        }
        assert(number_rows(lv, k as int));
        let c = choose|c: int| number_rows(lv, c);
        if c < k {
            assert(starts_with_digit(lv[c]));
        } else if c > k {
            assert(starts_with_digit(lv[k as int]));
        }
        assert(c == k);
    }
    if k == lines.len() {
        return None;
    }
    assert(lv[k as int] == lines[k as int]@);
    if !line_has_content(&lines[k]) {
        return None;
    }
    let mut rows: Vec<Vec<u64>> = Vec::new();
    let mut n: usize = 0;
    while n < k
        invariant
            n <= k < lines.len(),
            lv == views_of(lines@),
            lv == text_lines(input@),
            (choose|c: int| number_rows(lv, c)) == k,
            has_content(lv[k as int]),
            rows_values(lv, n as int) == Some(rows_view(rows@)),
        decreases k - n,
    {
        let line = &lines[n];
        assert(lv[n as int] == line@);
        let text = string_of(line, 0, line.len());
        assert(line@.subrange(0, line.len() as int) =~= line@);
        let ts = match find_tokens("\\d+", text.as_str()) {
            Some(ts) => ts,
            None => {
                proof { lemma_rows_none_stays(lv, n + 1, k as int); }
                return None;
            },
        };
        match tokens_to_values(&ts) {
            Some(vs) => {
                let ghost before = rows_view(rows@);
                rows.push(vs);
                assert(rows_view(rows@) =~= before.push(vs@.map_values(|x: u64| x as int)));
            },
            None => {
                proof { lemma_rows_none_stays(lv, n + 1, k as int); }
                return None;
            },
        }
        n += 1;
    }
    let op_line = &lines[k];
    let op_text = string_of(op_line, 0, op_line.len());
    assert(op_line@.subrange(0, op_line.len() as int) =~= op_line@);
    let ts = match find_tokens("\\S", op_text.as_str()) {
        Some(ts) => ts,
        None => return None,
    };
    let ghost tv = ts@.map_values(|s: String| s@);
    let mut ops: Vec<char> = Vec::new();
    let mut q: usize = 0;
    while q < ts.len()
        invariant
            q <= ts.len(),
            tv == ts@.map_values(|s: String| s@),
            ops@ == tv.map_values(|t: Seq<char>| first_char(t)).subrange(0, q as int),
        decreases ts.len() - q,
    {
        let tc = chars_of(ts[q].as_str());
        assert(tv[q as int] == tc@);
        let c = if tc.len() > 0 {
            tc[0]
        } else {
            ' '
        };
        ops.push(c);
        assert(ops@ =~= tv.map_values(|t: Seq<char>| first_char(t)).subrange(0, q + 1));
        q += 1;
    }
    assert(ops@ =~= tv.map_values(|t: Seq<char>| first_char(t)));
    grand_total_of(&rows, &ops)
}

/// The character in row `r`, column `c`; a space past the end of the row.
pub open spec fn char_at(data: Seq<Seq<char>>, r: int, c: int) -> char {
    if 0 <= c < data[r].len() {
        data[r][c]
    } else {
        ' '
    }
}

/// Every row of column `c` among the first `n` rows holds a space.
pub open spec fn col_blank(data: Seq<Seq<char>>, c: int, n: int) -> bool {
    forall|r: int| 0 <= r < n ==> #[trigger] char_at(data, r, c) == ' '
}

/// The number the digits of column `c` write, top to bottom over the first
/// `n` rows, other characters skipped; checked `u128` arithmetic.
pub open spec fn col_number(data: Seq<Seq<char>>, c: int, n: int) -> Option<int>
    decreases n,
{
    if n <= 0 {
        Some(0)
    } else {
        match col_number(data, c, n - 1) {
            Some(a) => if is_digit(char_at(data, n - 1, c)) {
                let v = a * 10 + crate::text::digit_value(char_at(data, n - 1, c));
                if v <= u128::MAX {
                    Some(v)
                } else {
                    None
                }
            } else {
                Some(a)
            },
            None => None,
        }
    }
}

/// The product (when `times`) or sum of the first `n` operands, with
/// checked `u128` arithmetic.
pub open spec fn fold_ops(ops: Seq<int>, n: int, times: bool) -> Option<int>
    decreases n,
{
    if n <= 0 {
        Some(
            if times {
                1
            } else {
                0
            },
        )
    } else {
        match fold_ops(ops, n - 1, times) {
            Some(a) => {
                let v = if times {
                    a * ops[n - 1]
                } else {
                    a + ops[n - 1]
                };
                if v <= u128::MAX {
                    Some(v)
                } else {
                    None
                }
            },
            None => None,
        }
    }
}

/// The running total and the pending operands after reading the last `t`
/// columns, right to left. A column of spaces separates problems; any other
/// column gives one operand, and an operator under it closes its problem.
pub open spec fn sheet(data: Seq<Seq<char>>, w: int, t: int) -> Option<(int, Seq<int>)>
    decreases t,
{
    if t <= 0 {
        Some((0, Seq::empty()))
    } else {
        match sheet(data, w, t - 1) {
            Some((sum, ops)) => {
                let h = data.len() as int;
                let c = w - t;
                let op = char_at(data, h - 1, c);
                if col_blank(data, c, h - 1) {
                    if op == ' ' && ops.len() == 0 {
                        Some((sum, ops))
                    } else {
                        None
                    }
                } else {
                    match col_number(data, c, h - 1) {
                        Some(v) => {
                            let o2 = ops.push(v);
                            if op == '*' || op == '+' {
                                match fold_ops(o2, o2.len() as int, op == '*') {
                                    Some(x) => if sum + x <= u128::MAX {
                                        Some((sum + x, Seq::empty()))
                                    } else {
                                        None
                                    },
                                    None => None,
                                }
                            } else {
                                Some((sum, o2))
                            }
                        },
                        None => None,
                    }
                }
            },
            None => None,
        }
    }
}

/// The answer read column-wise, right to left, over the width of the
/// longest line: each column of digits is one number, and the operator row
/// (the last) closes each problem.
pub open spec fn part_two_of(input: Seq<char>) -> Option<int> {
    let data = text_lines(input);
    if data.len() >= 1 {
        match sheet(data, max_len(data), max_len(data)) {
            Some((sum, _)) => Some(sum),
            None => None,
        }
    } else {
        None
    }
}

proof fn lemma_sheet_none_stays(data: Seq<Seq<char>>, w: int, t: int, m: int)
    requires
        t <= m,
        sheet(data, w, t) is None,
    ensures
        sheet(data, w, m) is None,
    decreases m - t,
{
    if t < m {
        lemma_sheet_none_stays(data, w, t + 1, m);
    }
}

fn char_at_exec(data: &Vec<Vec<char>>, r: usize, c: usize) -> (ch: char)
    requires
        r < data.len(),
    ensures
        ch == char_at(views_of(data@), r as int, c as int),
{
    assert(views_of(data@)[r as int] == data@[r as int]@);
    if c < data[r].len() {
        data[r][c]
    } else {
        ' '
    }
}

fn column_number(data: &Vec<Vec<char>>, c: usize, n: usize) -> (r: Option<u128>)
    requires
        n <= data.len(),
    ensures
        opt_int(r) == col_number(views_of(data@), c as int, n as int),
{
    let ghost dv = views_of(data@);
    let mut acc: u128 = 0;
    let mut r: usize = 0;
    while r < n
        invariant
            r <= n <= data.len(),
            dv == views_of(data@),
            col_number(dv, c as int, r as int) == Some(acc as int),
        decreases n - r,
    {
        let ch = char_at_exec(data, r, c);
        if '0' <= ch && ch <= '9' {
            let d = (ch as u32 - 48) as u128;
            match acc.checked_mul(10) {
                Some(x) => match x.checked_add(d) {
                    Some(y) => {
                        acc = y;
                    },
                    None => {
                        proof { lemma_col_none_stays(dv, c as int, r + 1, n as int); }
                        return None;
                    },
                },
                None => {
                    proof { lemma_col_none_stays(dv, c as int, r + 1, n as int); }
                    return None;
                },
            }
        }
        r += 1;
    }
    Some(acc)
}

proof fn lemma_col_none_stays(data: Seq<Seq<char>>, c: int, n: int, m: int)
    requires
        n <= m,
        col_number(data, c, n) is None,
    ensures
        col_number(data, c, m) is None,
    decreases m - n,
{
    if n < m {
        lemma_col_none_stays(data, c, n + 1, m);
    }
}

proof fn lemma_fold_none_stays(ops: Seq<int>, n: int, m: int, times: bool)
    requires
        n <= m,
        fold_ops(ops, n, times) is None,
    ensures
        fold_ops(ops, m, times) is None,
    decreases m - n,
{
    if n < m {
        lemma_fold_none_stays(ops, n + 1, m, times);
    }
}

fn fold_operands(ops: &Vec<u128>, times: bool) -> (r: Option<u128>)
    ensures
        opt_int(r) == fold_ops(ops@.map_values(|x: u128| x as int), ops.len() as int, times),
{
    let ghost ov = ops@.map_values(|x: u128| x as int);
    let mut acc: u128 = if times {
        1
    } else {
        0
    };
    let mut n: usize = 0;
    while n < ops.len()
        invariant
            n <= ops.len(),
            ov == ops@.map_values(|x: u128| x as int),
            fold_ops(ov, n as int, times) == Some(acc as int),
        decreases ops.len() - n,
    {
        let v = ops[n];
        assert(ov[n as int] == v as int);
        let next = if times {
            acc.checked_mul(v)
        } else {
            acc.checked_add(v)
        };
        match next {
            Some(x) => {
                acc = x;
            },
            None => {
                proof { lemma_fold_none_stays(ov, n + 1, ops.len() as int, times); }
                return None;
            },
        }
        n += 1;
    }
    Some(acc)
}

fn part_two(input: &str) -> (r: Option<u128>)
    ensures
        opt_int(r) == part_two_of(input@),
{
    let cs = chars_of(input);
    let data = text_lines_of(&cs);
    let ghost dv = views_of(data@);
    assert(dv.len() == data.len());
    if data.len() == 0 {
        return None;
    }
    let w = crate::day07::max_row_len(&data);
    let h = data.len();
    let mut sum: u128 = 0;
    let mut ops: Vec<u128> = Vec::new();
    let mut t: usize = 0;
    while t < w
        invariant
            t <= w,
            h == data.len() >= 1,
            dv == views_of(data@),
            dv == text_lines(input@),
            w == max_len(dv),
            sheet(dv, w as int, t as int) == Some((sum as int, ops@.map_values(|x: u128| x as int))),
        decreases w - t,
    {
        let c = w - t - 1;
        let op = char_at_exec(&data, h - 1, c);
        let mut blank = true;
        let mut r: usize = 0;
        while r + 1 < h
            invariant
                r + 1 <= h,
                h == data.len(),
                dv == views_of(data@),
                blank == col_blank(dv, c as int, r as int),
            decreases h - r,
        {
            if char_at_exec(&data, r, c) != ' ' {
                blank = false;
            }
            r += 1;
        }
        if blank {
            if op == ' ' && ops.len() == 0 {
                assert(ops@.map_values(|x: u128| x as int).len() == 0);
            } else {
                proof { lemma_sheet_none_stays(dv, w as int, t + 1, w as int); }
                return None;
            }
        } else {
            match column_number(&data, c, h - 1) {
                Some(v) => {
                    let ghost before = ops@.map_values(|x: u128| x as int);
                    ops.push(v);
                    assert(ops@.map_values(|x: u128| x as int) =~= before.push(v as int));
                    if op == '*' || op == '+' {
                        match fold_operands(&ops, op == '*') {
                            Some(x) => match sum.checked_add(x) {
                                Some(y) => {
                                    sum = y;
                                    ops = Vec::new();
                                    assert(ops@.map_values(|x: u128| x as int) =~= Seq::<int>::empty());
                                },
                                None => {
                                    proof { lemma_sheet_none_stays(dv, w as int, t + 1, w as int); }
                                    return None;
                                },
                            },
                            None => {
                                proof { lemma_sheet_none_stays(dv, w as int, t + 1, w as int); }
                                return None;
                            },
                        }
                    }
                },
                None => {
                    proof { lemma_sheet_none_stays(dv, w as int, t + 1, w as int); }
                    return None;
                },
            }
        }
        t += 1;
    }
    Some(sum)
}

pub struct Day6Solver {
    pub input: String,
}

pub open spec fn answer_text(v: Option<int>) -> Seq<char> {
    match v {
        Some(x) => decimal_of(x),
        None => Seq::empty(),
    }
}

fn answer_string(v: Option<u128>) -> (r: String)
    ensures
        r@ == answer_text(opt_int(v)),
{
    match v {
        Some(x) => decimal_u128(x),
        None => String::new(),
    }
}

impl Solver for Day6Solver {
    open spec fn holds_input(&self, input: Seq<char>) -> bool {
        self.input@ == input
    }

    /// The grand total of the problems read row-wise.
    open spec fn answer_one(&self) -> Seq<char> {
        answer_text(part_one_of(self.input@))
    }

    /// The grand total of the problems read column-wise, right to left.
    open spec fn answer_two(&self) -> Seq<char> {
        answer_text(part_two_of(self.input@))
    }

    fn presolve(&mut self, input: &str) {
        self.input = String::from_str(input);
    }

    fn solve_part_one(&mut self) -> (r: String) {
        answer_string(part_one(self.input.as_str()))
    }

    fn solve_part_two(&mut self) -> (r: String) {
        answer_string(part_two(self.input.as_str()))
    }
}

/// A solver with an empty worksheet.
pub fn solver() -> (r: Day6Solver)
    ensures
        r.input@.len() == 0,
{
    Day6Solver { input: String::new() }
}

} // verus!
