//! Junction boxes in space, `x,y,z` per line. Pairs of boxes are joined in
//! order of distance, closest first; joined boxes form one circuit.
use vstd::prelude::*;

use crate::autosubmit::{i64_value, parse_i64};
use crate::solver::Solver;
use crate::text::{
    chars_of, decimal_i128, decimal_of, decimal_u128, split_chars, split_on, string_of, views_of,
};

verus! {

broadcast use vstd::seq_lib::group_to_multiset_ensures;

pub type Point = (int, int, int);

/// The bound on each coordinate.
pub open spec fn coord_ok(v: int) -> bool {
    -1099511627776 <= v <= 1099511627776
}

/// The box a line gives: three integers within the bound, separated by
/// commas (any further pieces are ignored).
pub open spec fn box_of(line: Seq<char>) -> Option<Point> {
    let ps = split_on(line, ',');
    if ps.len() >= 3 {
        match (i64_value(ps[0]), i64_value(ps[1]), i64_value(ps[2])) {
            (Some(x), Some(y), Some(z)) => if coord_ok(x) && coord_ok(y) && coord_ok(z) {
                Some((x, y, z))
            } else {
                None
            },
            _ => None,
        }
    } else {
        None
    }
}

pub open spec fn boxes_of(lines: Seq<Seq<char>>) -> Option<Seq<Point>>
    decreases lines.len(),
{
    if lines.len() == 0 {
        Some(Seq::empty())
    } else {
        match boxes_of(lines.drop_last()) {
            Some(bs) => if lines.last().len() == 0 {
                Some(bs)
            } else {
                match box_of(lines.last()) {
                    Some(b) => Some(bs.push(b)),
                    None => None,
                }
            },
            None => None,
        }
    }
}

/// The boxes of the input, skipping empty lines.
pub open spec fn parse_boxes(input: Seq<char>) -> Option<Seq<Point>> {
    boxes_of(split_on(input, '\n'))
}

pub open spec fn sq_dist(p: Point, q: Point) -> int {
    (p.0 - q.0) * (p.0 - q.0) + (p.1 - q.1) * (p.1 - q.1) + (p.2 - q.2) * (p.2 - q.2)
}

/// The sort key of the pair of boxes `i` and `j`: their squared distance,
/// then the pair itself.
pub open spec fn key_of(b: Seq<Point>, i: int, j: int) -> (int, int, int) {
    (sq_dist(b[i], b[j]), i, j)
}

/// The keys of the pairs `(i, j)` for `j` below `m`.
pub open spec fn row_keys(b: Seq<Point>, i: int, m: int) -> Seq<(int, int, int)>
    decreases m,
{
    if m <= 0 {
        Seq::empty()
    } else {
        row_keys(b, i, m - 1).push(key_of(b, i, m - 1))
    }
}

/// The keys of all pairs `(i, j)` with `j < i < n`.
pub open spec fn all_keys(b: Seq<Point>, n: int) -> Seq<(int, int, int)>
    decreases n,
{
    if n <= 0 {
        Seq::empty()
    } else {
        all_keys(b, n - 1) + row_keys(b, n - 1, n - 1)
    }
}

pub open spec fn lex_le(a: (int, int, int), b: (int, int, int)) -> bool {
    a.0 < b.0 || (a.0 == b.0 && (a.1 < b.1 || (a.1 == b.1 && a.2 <= b.2)))
}

pub open spec fn keys_view(v: Seq<(u128, usize, usize)>) -> Seq<(int, int, int)> {
    v.map_values(|k: (u128, usize, usize)| (k.0 as int, k.1 as int, k.2 as int))
}

/// Relies on `slice::sort_unstable`: the same elements, in ascending order
/// of the tuples (compared field by field).
#[verifier::external_body]
fn sort_keys(v: &mut Vec<(u128, usize, usize)>)
    ensures
        final(v)@.to_multiset() == old(v)@.to_multiset(),
        forall|i: int, j: int|
            0 <= i < j < final(v)@.len() ==> lex_le(
                #[trigger] keys_view(final(v)@)[i],
                #[trigger] keys_view(final(v)@)[j],
            ),
{
    v.sort_unstable();
}

proof fn lemma_boxes_none_stays(ls: Seq<Seq<char>>, i: int)
    requires
        0 <= i <= ls.len(),
        boxes_of(ls.subrange(0, i)) is None,
    ensures
        boxes_of(ls) is None,
    decreases ls.len() - i,
{
    if i < ls.len() {
        assert(ls.subrange(0, i + 1).drop_last() =~= ls.subrange(0, i));
        lemma_boxes_none_stays(ls, i + 1);
    } else {
        assert(ls.subrange(0, i) =~= ls);
    }
}

pub open spec fn box_ok(p: (i64, i64, i64)) -> bool {
    coord_ok(p.0 as int) && coord_ok(p.1 as int) && coord_ok(p.2 as int)
}

pub open spec fn boxes_view(v: Seq<(i64, i64, i64)>) -> Seq<Point> {
    v.map_values(|p: (i64, i64, i64)| (p.0 as int, p.1 as int, p.2 as int))
}

fn coordinate(pieces: &Vec<Vec<char>>, k: usize) -> (r: Option<i64>)
    requires
        k < pieces.len(),
    ensures
        match r {
            Some(v) => i64_value(pieces@[k as int]@) == Some(v as int) && coord_ok(v as int),
            None => match i64_value(pieces@[k as int]@) {
                Some(v) => !coord_ok(v),
                None => true,
            },
        },
{
    let piece = &pieces[k];
    let text = string_of(piece, 0, piece.len());
    assert(piece@.subrange(0, piece.len() as int) =~= piece@);
    match parse_i64(text.as_str()) {
        Some(v) => if -1099511627776 <= v && v <= 1099511627776 {
            Some(v)
        } else {
            None
        },
        None => None,
    }
}

fn parse_input(input: &str) -> (r: Option<Vec<(i64, i64, i64)>>)
    ensures
        match r {
            Some(v) => parse_boxes(input@) == Some(boxes_view(v@)),
            None => parse_boxes(input@) is None,
        },
{
    let cs = chars_of(input);
    let lines = split_chars(&cs, '\n');
    let ghost ls = views_of(lines@);
    let mut out: Vec<(i64, i64, i64)> = Vec::new();
    let mut i: usize = 0;
    while i < lines.len()
        invariant
            i <= lines.len(),
            ls == views_of(lines@),
            ls == split_on(input@, '\n'),
            boxes_of(ls.subrange(0, i as int)) == Some(boxes_view(out@)),
        decreases lines.len() - i,
    {
        let line = &lines[i];
        assert(ls.subrange(0, i + 1).drop_last() =~= ls.subrange(0, i as int));
        assert(ls.subrange(0, i + 1).last() == line@);
        if line.len() > 0 {
            let pieces = split_chars(line, ',');
            let ghost ps = views_of(pieces@);
            assert(ps.len() == pieces.len());
            if pieces.len() < 3 {
                proof { lemma_boxes_none_stays(ls, i + 1); }
                return None;
            }
            assert(ps[0] == pieces@[0]@ && ps[1] == pieces@[1]@ && ps[2] == pieces@[2]@);
            let x = coordinate(&pieces, 0);
            let y = coordinate(&pieces, 1);
            let z = coordinate(&pieces, 2);
            match (x, y, z) {
                (Some(x), Some(y), Some(z)) => {
                    let ghost before = boxes_view(out@);
                    out.push((x, y, z));
                    assert(boxes_view(out@) =~= before.push((x as int, y as int, z as int)));
                },
                _ => {
                    proof { lemma_boxes_none_stays(ls, i + 1); }
                    return None;
                },
            }
        }
        i += 1;
    }
    assert(ls.subrange(0, ls.len() as int) =~= ls);
    Some(out)
}

fn pair_key(b: &Vec<(i64, i64, i64)>, i: usize, j: usize) -> (r: (u128, usize, usize))
    requires
        i < b.len(),
        j < b.len(),
        forall|k: int| 0 <= k < b.len() ==> box_ok(#[trigger] b@[k]),
    ensures
        (r.0 as int, r.1 as int, r.2 as int) == key_of(boxes_view(b@), i as int, j as int),
{
    let p = b[i];
    let q = b[j];
    assert(box_ok(b@[i as int]) && box_ok(b@[j as int]));
    let dx = p.0 as i128 - q.0 as i128;
    let dy = p.1 as i128 - q.1 as i128;
    let dz = p.2 as i128 - q.2 as i128;
    assert(0 <= dx * dx <= 0x40_0000_0000_0000_0000_0000) by (nonlinear_arith)
        requires
            -2199023255552 <= dx <= 2199023255552,
    ;
    assert(0 <= dy * dy <= 0x40_0000_0000_0000_0000_0000) by (nonlinear_arith)
        requires
            -2199023255552 <= dy <= 2199023255552,
    ;
    assert(0 <= dz * dz <= 0x40_0000_0000_0000_0000_0000) by (nonlinear_arith)
        requires
            -2199023255552 <= dz <= 2199023255552,
    ;
    let d = dx * dx + dy * dy + dz * dz;
    (d as u128, i, j)
}

/// The keys of all pairs, in the order `(1,0), (2,0), (2,1), (3,0), ...`.
fn make_keys(b: &Vec<(i64, i64, i64)>) -> (r: Vec<(u128, usize, usize)>)
    requires
        forall|k: int| 0 <= k < b.len() ==> box_ok(#[trigger] b@[k]),
    ensures
        keys_view(r@) == all_keys(boxes_view(b@), b.len() as int),
{
    let ghost bv = boxes_view(b@);
    let mut keys: Vec<(u128, usize, usize)> = Vec::new();
    let mut i: usize = 0;
    while i < b.len()
        invariant
            i <= b.len(),
            bv == boxes_view(b@),
            forall|k: int| 0 <= k < b.len() ==> box_ok(#[trigger] b@[k]),
            keys_view(keys@) == all_keys(bv, i as int),
        decreases b.len() - i,
    {
        let mut j: usize = 0;
        while j < i
            invariant
                j <= i < b.len(),
                bv == boxes_view(b@),
                forall|k: int| 0 <= k < b.len() ==> box_ok(#[trigger] b@[k]),
                keys_view(keys@) == all_keys(bv, i as int) + row_keys(bv, i as int, j as int),
            decreases i - j,
        {
            let k = pair_key(b, i, j);
            let ghost before = keys_view(keys@);
            keys.push(k);
            assert(keys_view(keys@) =~= before.push((k.0 as int, k.1 as int, k.2 as int)));
            assert(all_keys(bv, i as int) + row_keys(bv, i as int, j + 1) =~= (all_keys(bv, i as int)
                + row_keys(bv, i as int, j as int)).push(key_of(bv, i as int, j as int)));
            j += 1;
        }
        assert(all_keys(bv, i + 1) == all_keys(bv, i as int) + row_keys(bv, i as int, i as int));
        i += 1;
    }
    keys
}

pub type Pair = (int, int);

/// Each box in a circuit of its own, named by its index.
pub open spec fn identity(n: int) -> Seq<int> {
    Seq::new(n as nat, |k: int| k)
}

/// Joins the circuits of boxes `a` and `b`: every box of `b`'s circuit
/// takes `a`'s circuit name.
pub open spec fn join(l: Seq<int>, a: int, b: int) -> Seq<int> {
    if l[a] == l[b] {
        l
    } else {
        Seq::new(
            l.len(),
            |k: int|
                if l[k] == l[b] {
                    l[a]
                } else {
                    l[k]
                },
        )
    }
}

/// The circuit names after joining the first `m` pairs.
pub open spec fn circuits_after(n: int, ps: Seq<Pair>, m: int) -> Seq<int>
    decreases m,
{
    if m <= 0 {
        identity(n)
    } else {
        join(circuits_after(n, ps, m - 1), ps[m - 1].0, ps[m - 1].1)
    }
}

/// How many of the first `m` boxes are in circuit `v`.
pub open spec fn circuit_size(l: Seq<int>, v: int, m: int) -> int
    decreases m,
{
    if m <= 0 {
        0
    } else {
        circuit_size(l, v, m - 1) + if l[m - 1] == v {
            1int
        } else {
            0int
        }
    }
}

/// Keeps the three largest values seen, largest first (0 where fewer).
pub open spec fn keep_top(t: (int, int, int), x: int) -> (int, int, int) {
    if x > t.0 {
        (x, t.0, t.1)
    } else if x > t.1 {
        (t.0, x, t.1)
    } else if x > t.2 {
        (t.0, t.1, x)
    } else {
        t
    }
}

/// The three largest circuit sizes among the circuit names below `m`.
pub open spec fn top_sizes(l: Seq<int>, m: int) -> (int, int, int)
    decreases m,
{
    if m <= 0 {
        (0, 0, 0)
    } else {
        keep_top(top_sizes(l, m - 1), circuit_size(l, m - 1, l.len() as int))
    }
}

pub open spec fn or_one(x: int) -> int {
    if x > 0 {
        x
    } else {
        1
    }
}

/// The product of the sizes of the (up to) three largest circuits after
/// joining the first `limit` pairs.
pub open spec fn part_one_value(n: int, ps: Seq<Pair>, limit: int) -> int {
    let m = if limit <= ps.len() {
        limit
    } else {
        ps.len() as int
    };
    let t = top_sizes(circuits_after(n, ps, m), n);
    or_one(t.0) * or_one(t.1) * or_one(t.2)
}

pub open spec fn all_one(l: Seq<int>) -> bool {
    forall|k: int| 0 <= k < l.len() ==> #[trigger] l[k] == l[0]
}

/// The index of the first pair whose join leaves a single circuit.
pub open spec fn first_join(n: int, ps: Seq<Pair>, m: int) -> Option<int>
    decreases m,
{
    if m <= 0 {
        None
    } else {
        match first_join(n, ps, m - 1) {
            Some(k) => Some(k),
            None => if !all_one(circuits_after(n, ps, m - 1)) && all_one(circuits_after(n, ps, m)) {
                Some(m - 1)
            } else {
                None
            },
        }
    }
}

pub open spec fn pairs_view(v: Seq<(usize, usize)>) -> Seq<Pair> {
    v.map_values(|p: (usize, usize)| (p.0 as int, p.1 as int))
}

pub open spec fn pairs_in_range(ps: Seq<Pair>, n: int) -> bool {
    forall|k: int| 0 <= k < ps.len() ==> 0 <= (#[trigger] ps[k]).0 < n && 0 <= ps[k].1 < n
}

pub open spec fn names_in_range(l: Seq<int>, n: int) -> bool {
    l.len() == n && forall|k: int| 0 <= k < l.len() ==> 0 <= #[trigger] l[k] < n
}

proof fn lemma_join_in_range(l: Seq<int>, n: int, a: int, b: int)
    requires
        names_in_range(l, n),
        0 <= a < n,
        0 <= b < n,
    ensures
        names_in_range(join(l, a, b), n),
{
}

fn join_exec(labels: &mut Vec<usize>, a: usize, b: usize)
    requires
        a < old(labels).len(),
        b < old(labels).len(),
    ensures
        final(labels)@.map_values(|x: usize| x as int) == join(
            old(labels)@.map_values(|x: usize| x as int),
            a as int,
            b as int,
        ),
{
    let ghost l0 = labels@.map_values(|x: usize| x as int);
    let la = labels[a];
    let lb = labels[b];
    if la == lb {
        return;
    }
    let n = labels.len();
    let mut k: usize = 0;
    while k < n
        invariant
            k <= n == labels.len(),
            l0.len() == n,
            l0[a as int] == la,
            l0[b as int] == lb,
            la != lb,
            forall|q: int| 0 <= q < k ==> labels@[q] as int == (if l0[q] == lb {
                la as int
            } else {
                l0[q]
            }),
            forall|q: int| k <= q < n ==> labels@[q] as int == l0[q],
        decreases n - k,
    {
        if labels[k] == lb {
            labels.set(k, la);
        }
        k += 1;
    }
    assert(labels@.map_values(|x: usize| x as int) =~= join(l0, a as int, b as int));
}

pub open spec fn labels_view(v: Seq<usize>) -> Seq<int> {
    v.map_values(|x: usize| x as int)
}

fn identity_labels(n: usize) -> (r: Vec<usize>)
    ensures
        labels_view(r@) == identity(n as int),
{
    let mut v: Vec<usize> = Vec::new();
    let mut k: usize = 0;
    while k < n
        invariant
            k <= n,
            labels_view(v@) == identity(n as int).subrange(0, k as int),
        decreases n - k,
    {
        let ghost before = labels_view(v@);
        v.push(k);
        assert(labels_view(v@) =~= before.push(k as int));
        assert(labels_view(v@) =~= identity(n as int).subrange(0, k + 1));
        k += 1;
    }
    assert(identity(n as int).subrange(0, n as int) =~= identity(n as int));
    v
}

fn join_pairs(n: usize, pairs: &Vec<(usize, usize)>, m: usize) -> (r: Vec<usize>)
    requires
        m <= pairs.len(),
        pairs_in_range(pairs_view(pairs@), n as int),
    ensures
        labels_view(r@) == circuits_after(n as int, pairs_view(pairs@), m as int),
        names_in_range(labels_view(r@), n as int),
{
    let ghost pv = pairs_view(pairs@);
    let mut labels = identity_labels(n);
    let mut q: usize = 0;
    while q < m
        invariant
            q <= m <= pairs.len(),
            pv == pairs_view(pairs@),
            pairs_in_range(pv, n as int),
            labels_view(labels@) == circuits_after(n as int, pv, q as int),
            names_in_range(labels_view(labels@), n as int),
        decreases m - q,
    {
        let (a, b) = pairs[q];
        assert(pv[q as int] == (a as int, b as int));
        proof { lemma_join_in_range(labels_view(labels@), n as int, a as int, b as int); }
        join_exec(&mut labels, a, b);
        q += 1;
    }
    labels
}

/// The product of the three largest circuit sizes after joining the first
/// `limit` pairs, when it fits in `u128`.
fn part_one(n: usize, pairs: &Vec<(usize, usize)>, limit: usize) -> (r: Option<u128>)
    requires
        pairs_in_range(pairs_view(pairs@), n as int),
    ensures
        match r {
            Some(v) => v == part_one_value(n as int, pairs_view(pairs@), limit as int),
            None => part_one_value(n as int, pairs_view(pairs@), limit as int) > u128::MAX,
        },
{
    let m = if limit <= pairs.len() {
        limit
    } else {
        pairs.len()
    };
    let labels = join_pairs(n, pairs, m);
    let ghost l = labels_view(labels@);
    let mut counts: Vec<u64> = Vec::new();
    let mut v: usize = 0;
    while v < n
        invariant
            v <= n,
            counts.len() == v,
            forall|w: int| 0 <= w < v ==> counts@[w] == 0,
        decreases n - v,
    {
        counts.push(0);
        v += 1;
    }
    let mut k: usize = 0;
    while k < n
        invariant
            k <= n == labels.len() == counts.len(),
            l == labels_view(labels@),
            names_in_range(l, n as int),
            forall|w: int| 0 <= w < n ==> #[trigger] counts@[w] == circuit_size(l, w, k as int),
            forall|w: int| 0 <= w < n ==> #[trigger] counts@[w] <= k,
        decreases n - k,
    {
        let c = labels[k];
        assert(l[k as int] == c as int);
        counts.set(c, counts[c] + 1);
        assert forall|w: int| 0 <= w < n implies #[trigger] counts@[w] == circuit_size(l, w, k + 1) by {}
        k += 1;
    }
    let mut t: (u64, u64, u64) = (0, 0, 0);
    let mut w: usize = 0;
    while w < n
        invariant
            w <= n == counts.len() == l.len(),
            forall|x: int| 0 <= x < n ==> #[trigger] counts@[x] == circuit_size(l, x, n as int),
            (t.0 as int, t.1 as int, t.2 as int) == top_sizes(l, w as int),
        decreases n - w,
    {
        let x = counts[w];
        t = if x > t.0 {
            (x, t.0, t.1)
        } else if x > t.1 {
            (t.0, x, t.1)
        } else if x > t.2 {
            (t.0, t.1, x)
        } else {
            t
        };
        w += 1;
    }
    let a: u128 = if t.0 > 0 { t.0 as u128 } else { 1 };
    let b: u128 = if t.1 > 0 { t.1 as u128 } else { 1 };
    let c: u128 = if t.2 > 0 { t.2 as u128 } else { 1 };
    assert(a * b <= u128::MAX) by (nonlinear_arith)
        requires
            a <= u64::MAX,
            b <= u64::MAX,
    ;
    match (a * b).checked_mul(c) {
        Some(p) => Some(p),
        None => None,
    }
}

proof fn lemma_first_join_stays(n: int, ps: Seq<Pair>, m1: int, m2: int, k: int)
    requires
        m1 <= m2,
        first_join(n, ps, m1) == Some(k),
    ensures
        first_join(n, ps, m2) == Some(k),
    decreases m2 - m1,
{
    if m1 < m2 {
        lemma_first_join_stays(n, ps, m1, m2 - 1, k);
    }
}

proof fn lemma_first_join_range(n: int, ps: Seq<Pair>, m: int)
    ensures
        match first_join(n, ps, m) {
            Some(k) => 0 <= k < m,
            None => true,
        },
    decreases m,
{
    if m > 0 {
        lemma_first_join_range(n, ps, m - 1);
    }
}

fn all_one_exec(labels: &Vec<usize>) -> (r: bool)
    requires
        labels.len() > 0,
    ensures
        r == all_one(labels_view(labels@)),
{
    let ghost l = labels_view(labels@);
    let first = labels[0];
    let mut k: usize = 0;
    while k < labels.len()
        invariant
            k <= labels.len(),
            l == labels_view(labels@),
            first == labels@[0],
            forall|q: int| 0 <= q < k ==> #[trigger] l[q] == l[0],
        decreases labels.len() - k,
    {
        if labels[k] != first {
            assert(l[k as int] != l[0]);
            return false;
        }
        k += 1;
    }
    true
}

/// The product of the `x` coordinates of the pair whose join first leaves
/// a single circuit.
fn part_two(boxes: &Vec<(i64, i64, i64)>, pairs: &Vec<(usize, usize)>) -> (r: Option<i128>)
    requires
        pairs_in_range(pairs_view(pairs@), boxes.len() as int),
        forall|k: int| 0 <= k < boxes.len() ==> box_ok(#[trigger] boxes@[k]),
    ensures
        match first_join(boxes.len() as int, pairs_view(pairs@), pairs.len() as int) {
            Some(k) => r is Some && r->0 as int == boxes@[pairs@[k].0 as int].0 as int
                * boxes@[pairs@[k].1 as int].0 as int,
            None => r is None,
        },
{
    let n = boxes.len();
    let ghost pv = pairs_view(pairs@);
    let mut labels = identity_labels(n);
    let mut m: usize = 0;
    while m < pairs.len()
        invariant
            m <= pairs.len(),
            n == boxes.len(),
            pv == pairs_view(pairs@),
            pairs_in_range(pv, n as int),
            forall|k: int| 0 <= k < boxes.len() ==> box_ok(#[trigger] boxes@[k]),
            labels_view(labels@) == circuits_after(n as int, pv, m as int),
            names_in_range(labels_view(labels@), n as int),
            first_join(n as int, pv, m as int) is None,
        decreases pairs.len() - m,
    {
        let (a, b) = pairs[m];
        assert(pv[m as int] == (a as int, b as int));
        proof { lemma_join_in_range(labels_view(labels@), n as int, a as int, b as int); }
        if labels[a] != labels[b] {
            assert(!all_one(labels_view(labels@))) by {
                if all_one(labels_view(labels@)) {
                    assert(labels_view(labels@)[a as int] == labels_view(labels@)[0]);
                    assert(labels_view(labels@)[b as int] == labels_view(labels@)[0]);
                }
            }
            join_exec(&mut labels, a, b);
            if all_one_exec(&labels) {
                proof {
                    assert(circuits_after(n as int, pv, m + 1) == join(circuits_after(n as int, pv, m as int), a as int, b as int));
                    assert(first_join(n as int, pv, m + 1) == Some(m as int));
                    lemma_first_join_stays(n as int, pv, m + 1, pairs.len() as int, m as int);
                }
                let p = boxes[a];
                let q = boxes[b];
                assert(box_ok(boxes@[a as int]) && box_ok(boxes@[b as int]));
                let x = p.0 as i128;
                let y = q.0 as i128;
                assert(-0x1_0000_0000_0000_0000_0000 <= x * y <= 0x1_0000_0000_0000_0000_0000) by (nonlinear_arith)
                    requires
                        -1099511627776 <= x <= 1099511627776,
                        -1099511627776 <= y <= 1099511627776,
                ;
                return Some(x * y);
            }
        }
        m += 1;
    }
    None
}

/// `ps` lists every pair `(i, j)`, `j < i`, of the boxes, closest first
/// (ties by `i`, then `j`).
pub open spec fn sorted_pairs(ps: Seq<Pair>, b: Seq<Point>) -> bool {
    exists|g: Seq<(u128, usize, usize)>, k: Seq<(u128, usize, usize)>|
        #[trigger] keys_view(g) == all_keys(b, b.len() as int) && #[trigger] k.to_multiset()
            == g.to_multiset() && (forall|i: int, j: int|
            0 <= i < j < k.len() ==> lex_le(keys_view(k)[i], keys_view(k)[j])) && ps == keys_view(
            k,
        ).map_values(|t: (int, int, int)| (t.1, t.2))
}

pub struct Day8Solver {
    pub boxes: Vec<(i64, i64, i64)>,
    pub pairs_by_distance: Vec<(usize, usize)>,
    pub well_formed: bool,
}

impl Day8Solver {
    /// The solver's data is fit to compute on: it was parsed from an input,
    /// its coordinates are within the bound and its pairs name boxes.
    pub open spec fn usable(&self) -> bool {
        &&& self.well_formed
        &&& forall|k: int| 0 <= k < self.boxes.len() ==> box_ok(#[trigger] self.boxes@[k])
        &&& pairs_in_range(pairs_view(self.pairs_by_distance@), self.boxes.len() as int)
    }

    /// The answer to the first part when the first `limit` pairs are joined.
    pub open spec fn answer_for_limit(&self, limit: int) -> Seq<char> {
        let v = part_one_value(self.boxes.len() as int, pairs_view(self.pairs_by_distance@), limit);
        if self.usable() && v <= u128::MAX {
            decimal_of(v)
        } else {
            Seq::empty()
        }
    }

    fn usable_exec(&self) -> (r: bool)
        ensures
            r == self.usable(),
    {
        if !self.well_formed {
            return false;
        }
        let n = self.boxes.len();
        let mut k: usize = 0;
        while k < n
            invariant
                k <= n == self.boxes.len(),
                forall|q: int| 0 <= q < k ==> box_ok(#[trigger] self.boxes@[q]),
            decreases n - k,
        {
            let p = self.boxes[k];
            let lim: i64 = 1099511627776;
            if !(-lim <= p.0 && p.0 <= lim && -lim <= p.1 && p.1 <= lim && -lim <= p.2 && p.2 <= lim) {
                assert(!box_ok(self.boxes@[k as int]));
                return false;
            }
            k += 1;
        }
        let ghost pv = pairs_view(self.pairs_by_distance@);
        let mut q: usize = 0;
        while q < self.pairs_by_distance.len()
            invariant
                q <= self.pairs_by_distance.len(),
                n == self.boxes.len(),
                pv == pairs_view(self.pairs_by_distance@),
                forall|w: int| 0 <= w < q ==> 0 <= (#[trigger] pv[w]).0 < n && 0 <= pv[w].1 < n,
            decreases self.pairs_by_distance.len() - q,
        {
            let (a, b) = self.pairs_by_distance[q];
            assert(pv[q as int] == (a as int, b as int));
            if a >= n || b >= n {
                return false;
            }
            q += 1;
        }
        true
    }

    /// The product of the three largest circuit sizes once the `limit`
    /// closest pairs are joined.
    pub fn solve_part_one_limit(&mut self, limit: usize) -> (r: String)
        ensures
            r@ == old(self).answer_for_limit(limit as int),
            *final(self) == *old(self),
    {
        if !self.usable_exec() {
            return String::new();
        }
        match part_one(self.boxes.len(), &self.pairs_by_distance, limit) {
            Some(v) => decimal_u128(v),
            None => String::new(),
        }
    }
}

impl Solver for Day8Solver {
    open spec fn holds_input(&self, input: Seq<char>) -> bool {
        match parse_boxes(input) {
            Some(b) => self.well_formed && boxes_view(self.boxes@) == b && sorted_pairs(
                pairs_view(self.pairs_by_distance@),
                b,
            ),
            None => !self.well_formed,
        }
    }

    /// The product of the three largest circuit sizes once the thousand
    /// closest pairs are joined.
    open spec fn answer_one(&self) -> Seq<char> {
        self.answer_for_limit(1000)
    }

    /// The product of the `x` coordinates of the pair whose join first
    /// leaves a single circuit.
    open spec fn answer_two(&self) -> Seq<char> {
        let ps = pairs_view(self.pairs_by_distance@);
        if self.usable() {
            match first_join(self.boxes.len() as int, ps, ps.len() as int) {
                Some(k) => decimal_of(
                    self.boxes@[ps[k].0].0 as int * self.boxes@[ps[k].1].0 as int,
                ),
                None => Seq::empty(),
            }
        } else {
            Seq::empty()
        }
    }

    fn presolve(&mut self, input: &str) {
        match parse_input(input) {
            Some(b) => {
                proof {
                    assert forall|k: int| 0 <= k < b.len() implies box_ok(#[trigger] b@[k]) by {
                        lemma_parsed_in_bound(input@, boxes_view(b@), k);
                        assert(boxes_view(b@)[k] == (b@[k].0 as int, b@[k].1 as int, b@[k].2 as int));
                    }
                }
                let mut keys = make_keys(&b);
                let ghost g = keys@;
                sort_keys(&mut keys);
                let ghost kv = keys_view(keys@);
                let mut pairs: Vec<(usize, usize)> = Vec::new();
                let mut q: usize = 0;
                while q < keys.len()
                    invariant
                        q <= keys.len(),
                        kv == keys_view(keys@),
                        pairs_view(pairs@) == kv.map_values(|t: (int, int, int)| (t.1, t.2)).subrange(0, q as int),
                    decreases keys.len() - q,
                {
                    let k = keys[q];
                    let ghost before = pairs_view(pairs@);
                    pairs.push((k.1, k.2));
                    assert(pairs_view(pairs@) =~= before.push((k.1 as int, k.2 as int)));
                    assert(pairs_view(pairs@) =~= kv.map_values(|t: (int, int, int)| (t.1, t.2)).subrange(0, q + 1));
                    q += 1;
                }
                assert(pairs_view(pairs@) =~= kv.map_values(|t: (int, int, int)| (t.1, t.2)));
                assert(keys_view(g) == all_keys(boxes_view(b@), b.len() as int));
                self.boxes = b;
                self.pairs_by_distance = pairs;
                self.well_formed = true;
                assert(sorted_pairs(pairs_view(self.pairs_by_distance@), boxes_view(self.boxes@)));
            },
            None => {
                self.boxes = Vec::new();
                self.pairs_by_distance = Vec::new();
                self.well_formed = false;
            },
        }
    }

    fn solve_part_one(&mut self) -> (r: String) {
        self.solve_part_one_limit(1000)
    }

    fn solve_part_two(&mut self) -> (r: String) {
        if !self.usable_exec() {
            return String::new();
        }
        let ghost ps = pairs_view(self.pairs_by_distance@);
        proof {
            let len = self.pairs_by_distance.len() as int;
            lemma_first_join_range(self.boxes.len() as int, ps, len);
            if let Some(k) = first_join(self.boxes.len() as int, ps, len) {
                assert(ps[k] == (self.pairs_by_distance@[k].0 as int, self.pairs_by_distance@[k].1 as int));
            }
        }
        match part_two(&self.boxes, &self.pairs_by_distance) {
            Some(v) => decimal_i128(v),
            None => String::new(),
        }
    }
}

/// Parsed boxes have their coordinates within the bound.
proof fn lemma_parsed_in_bound(input: Seq<char>, bs: Seq<Point>, k: int)
    requires
        parse_boxes(input) == Some(bs),
        0 <= k < bs.len(),
    ensures
        coord_ok(bs[k].0) && coord_ok(bs[k].1) && coord_ok(bs[k].2),
{
    lemma_boxes_in_bound(split_on(input, '\n'), bs, k);
}

proof fn lemma_boxes_in_bound(ls: Seq<Seq<char>>, bs: Seq<Point>, k: int)
    requires
        boxes_of(ls) == Some(bs),
        0 <= k < bs.len(),
    ensures
        coord_ok(bs[k].0) && coord_ok(bs[k].1) && coord_ok(bs[k].2),
    decreases ls.len(),
{
    if ls.len() > 0 {
        let prev = boxes_of(ls.drop_last())->0;
        if ls.last().len() == 0 {
            lemma_boxes_in_bound(ls.drop_last(), bs, k);
        } else if k < prev.len() {
            assert(bs[k] == prev[k]);
            lemma_boxes_in_bound(ls.drop_last(), prev, k);
        }
    }
}

/// A solver with no boxes yet.
pub fn solver() -> (r: Day8Solver)
    ensures
        !r.well_formed,
{
    Day8Solver { boxes: Vec::new(), pairs_by_distance: Vec::new(), well_formed: false }
}

} // verus!
