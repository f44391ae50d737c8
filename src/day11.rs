//! Devices and their outputs, one line each: `name: out1 out2 ...`. The
//! answers count the ways from one device to `out`.
use vstd::prelude::*;

use crate::solver::Solver;
use crate::text::{chars_of, decimal_of, decimal_u128, split_chars, split_on, views_of};

verus! {

pub type Device = (Seq<char>, Seq<Seq<char>>);

/// The device a line names, with its outputs: the first word, ending in
/// `:`, then the other words.
pub open spec fn device_of(line: Seq<char>) -> Option<Device> {
    let ps = split_on(line, ' ');
    if ps.len() > 0 && ps[0].len() > 0 && ps[0].last() == ':' {
        Some((ps[0].drop_last(), ps.drop_first()))
    } else {
        None
    }
}

pub open spec fn devices_of(lines: Seq<Seq<char>>) -> Option<Seq<Device>>
    decreases lines.len(),
{
    if lines.len() == 0 {
        Some(Seq::empty())
    } else {
        match devices_of(lines.drop_last()) {
            Some(ds) => if lines.last().len() == 0 {
                Some(ds)
            } else {
                match device_of(lines.last()) {
                    Some(d) => Some(ds.push(d)),
                    None => None,
                }
            },
            None => None,
        }
    }
}

/// The devices of the input, skipping empty lines; `None` when a line does
/// not start with a name and `:`.
pub open spec fn parse_devices(input: Seq<char>) -> Option<Seq<Device>> {
    devices_of(split_on(input, '\n'))
}

/// The index of the last line that describes `name`, or -1.
pub open spec fn last_index(g: Seq<Device>, name: Seq<char>) -> int
    decreases g.len(),
{
    if g.len() == 0 {
        -1
    } else if g.last().0 == name {
        g.len() - 1
    } else {
        last_index(g.drop_last(), name)
    }
}

/// The outputs of `name`, as its last line gives them; none for a device
/// without a line.
pub open spec fn outs(g: Seq<Device>, name: Seq<char>) -> Seq<Seq<char>> {
    let i = last_index(g, name);
    if 0 <= i < g.len() {
        g[i].1
    } else {
        Seq::empty()
    }
}

/// The number of ways from `v` to `out` in at most `k` steps that pass
/// through `dac` (when `nd`) and through `fft` (when `nf`), `v` included.
pub open spec fn walks(g: Seq<Device>, v: Seq<char>, k: nat, nd: bool, nf: bool) -> int
    decreases k, 0nat,
{
    let nd2 = nd && v != "dac"@;
    let nf2 = nf && v != "fft"@;
    if v == "out"@ {
        if !nd2 && !nf2 {
            1
        } else {
            0
        }
    } else if k == 0 {
        0
    } else {
        sum_walks(g, outs(g, v), (k - 1) as nat, nd2, nf2)
    }
}

/// The sum of `walks` over the devices `os`.
pub open spec fn sum_walks(g: Seq<Device>, os: Seq<Seq<char>>, k: nat, nd: bool, nf: bool) -> int
    decreases k, os.len() + 1,
{
    if os.len() == 0 {
        0
    } else {
        sum_walks(g, os.drop_last(), k, nd, nf) + walks(g, os.last(), k, nd, nf)
    }
}

/// `walks` from the device of line `i`, with the outputs that line gives.
pub open spec fn entry_walks(g: Seq<Device>, i: int, k: nat, nd: bool, nf: bool) -> int {
    let v = g[i].0;
    let nd2 = nd && v != "dac"@;
    let nf2 = nf && v != "fft"@;
    if v == "out"@ {
        if !nd2 && !nf2 {
            1
        } else {
            0
        }
    } else if k == 0 {
        0
    } else {
        sum_walks(g, g[i].1, (k - 1) as nat, nd2, nf2)
    }
}

/// Every count of ways of at most `n` steps, from any line's device, fits
/// in `u128`.
pub open spec fn counts_fit(g: Seq<Device>, n: nat) -> bool {
    forall|i: int, k: nat, nd: bool, nf: bool|
        0 <= i < g.len() && k <= n ==> #[trigger] entry_walks(g, i, k, nd, nf) <= u128::MAX
}

/// The answer counting ways from `from` through the devices asked for, in
/// at most as many steps as there are lines; none when the counts do not
/// fit in `u128`.
pub open spec fn answer_for(g: Option<Seq<Device>>, from: Seq<char>, nd: bool, nf: bool) -> Seq<
    char,
> {
    match g {
        Some(d) => if counts_fit(d, d.len()) {
            decimal_of(walks(d, from, d.len(), nd, nf))
        } else {
            Seq::empty()
        },
        None => Seq::empty(),
    }
}

pub struct Day11Solver {
    pub devices: Option<Vec<(Vec<char>, Vec<Vec<char>>)>>,
}

pub open spec fn device_view(d: (Vec<char>, Vec<Vec<char>>)) -> Device {
    (d.0@, views_of(d.1@))
}

pub open spec fn graph_view(v: Seq<(Vec<char>, Vec<Vec<char>>)>) -> Seq<Device> {
    v.map_values(|d: (Vec<char>, Vec<Vec<char>>)| device_view(d))
}

impl Day11Solver {
    pub open spec fn graph(&self) -> Option<Seq<Device>> {
        match self.devices {
            Some(v) => Some(graph_view(v@)),
            None => None,
        }
    }
}

fn same_chars(a: &Vec<char>, b: &Vec<char>) -> (r: bool)
    ensures
        r == (a@ == b@),
{
    if a.len() != b.len() {
        return false;
    }
    let mut i: usize = 0;
    while i < a.len()
        invariant
            i <= a.len() == b.len(),
            forall|j: int| 0 <= j < i ==> a@[j] == b@[j],
        decreases a.len() - i,
    {
        if a[i] != b[i] {
            return false;
        }
        i += 1;
    }
    assert(a@ =~= b@);
    true
}

proof fn lemma_devices_none_stays(ls: Seq<Seq<char>>, i: int)
    requires
        0 <= i <= ls.len(),
        devices_of(ls.subrange(0, i)) is None,
    ensures
        devices_of(ls) is None,
    decreases ls.len() - i,
{
    if i < ls.len() {
        assert(ls.subrange(0, i + 1).drop_last() =~= ls.subrange(0, i));
        lemma_devices_none_stays(ls, i + 1);
    } else {
        assert(ls.subrange(0, i) =~= ls);
    }
}

fn parse_input(input: &str) -> (r: Option<Vec<(Vec<char>, Vec<Vec<char>>)>>)
    ensures
        match r {
            Some(v) => parse_devices(input@) == Some(graph_view(v@)),
            None => parse_devices(input@) is None,
        },
{
    let cs = chars_of(input);
    let lines = split_chars(&cs, '\n');
    let ghost ls = views_of(lines@);
    let mut out: Vec<(Vec<char>, Vec<Vec<char>>)> = Vec::new();
    let mut i: usize = 0;
    while i < lines.len()
        invariant
            i <= lines.len(),
            ls == views_of(lines@),
            ls == split_on(input@, '\n'),
            devices_of(ls.subrange(0, i as int)) == Some(graph_view(out@)),
        decreases lines.len() - i,
    {
        let line = &lines[i];
        let ghost lv = ls[i as int];
        assert(ls.subrange(0, i + 1).drop_last() =~= ls.subrange(0, i as int));
        assert(ls.subrange(0, i + 1).last() == lv);
        assert(lv == line@);
        if line.len() > 0 {
            let mut words = split_chars(line, ' ');
            let ghost ws = views_of(words@);
            assert(ws.len() == words.len());
            if words.len() == 0 || words[0].len() == 0 || words[0][words[0].len() - 1] != ':' {
                proof {
                    if words.len() > 0 {
                        assert(ws[0] == words[0]@);
                    }
                    lemma_devices_none_stays(ls, i + 1);
                }
                return None;
            }
            assert(ws[0] == words[0]@);
            let first = words.remove(0);
            let mut name: Vec<char> = Vec::new();
            let mut j: usize = 0;
            while j + 1 < first.len()
                invariant
                    j + 1 <= first.len(),
                    name@ == first@.subrange(0, j as int),
                decreases first.len() - j,
            {
                name.push(first[j]);
                assert(first@.subrange(0, j + 1) =~= first@.subrange(0, j as int).push(first@[j as int]));
                j += 1;
            }
            assert(name@ =~= ws[0].drop_last());
            assert(views_of(words@) =~= ws.drop_first());
            let ghost dv = (name@, views_of(words@));
            out.push((name, words));
            assert(graph_view(out@) =~= graph_view(out@.drop_last()).push(dv));
        }
        i += 1;
    }
    assert(ls.subrange(0, ls.len() as int) =~= ls);
    Some(out)
}

proof fn lemma_last_index(g: Seq<Device>, name: Seq<char>)
    ensures
        -1 <= last_index(g, name) < g.len(),
        last_index(g, name) >= 0 ==> g[last_index(g, name)].0 == name,
        last_index(g, name) == -1 ==> forall|j: int| 0 <= j < g.len() ==> g[j].0 != name,
    decreases g.len(),
{
    if g.len() > 0 && g.last().0 != name {
        lemma_last_index(g.drop_last(), name);
        if last_index(g, name) == -1 {
            assert forall|j: int| 0 <= j < g.len() implies g[j].0 != name by {
                if j < g.len() - 1 {
                    assert(g[j] == g.drop_last()[j]);
                }
            }
        } else {
            assert(g[last_index(g, name)] == g.drop_last()[last_index(g, name)]);
        }
    }
}

/// The index of the last line describing `name`.
fn find_last(g: &Vec<(Vec<char>, Vec<Vec<char>>)>, name: &Vec<char>) -> (r: Option<usize>)
    ensures
        match r {
            Some(j) => j == last_index(graph_view(g@), name@),
            None => last_index(graph_view(g@), name@) == -1,
        },
{
    let ghost gv = graph_view(g@);
    let mut k: usize = g.len();
    assert(gv.subrange(0, k as int) =~= gv);
    while k > 0
        invariant
            k <= g.len(),
            gv == graph_view(g@),
            last_index(gv, name@) == last_index(gv.subrange(0, k as int), name@),
        decreases k,
    {
        assert(gv.subrange(0, k as int).drop_last() =~= gv.subrange(0, k - 1));
        assert(gv.subrange(0, k as int).last() == gv[k - 1]);
        if same_chars(&g[k - 1].0, name) {
            return Some(k - 1);
        }
        k -= 1;
    }
    None
}

/// A line's device, reached through its name, counts as the device itself.
proof fn lemma_entry_is_walks(g: Seq<Device>, name: Seq<char>, k: nat, nd: bool, nf: bool)
    requires
        last_index(g, name) >= 0,
    ensures
        entry_walks(g, last_index(g, name), k, nd, nf) == walks(g, name, k, nd, nf),
{
    lemma_last_index(g, name);
}

proof fn lemma_walks_nonneg(g: Seq<Device>, v: Seq<char>, k: nat, nd: bool, nf: bool)
    ensures
        walks(g, v, k, nd, nf) >= 0,
    decreases k, 0nat,
{
    if v != "out"@ && k > 0 {
        let nd2 = nd && v != "dac"@;
        let nf2 = nf && v != "fft"@;
        lemma_sum_walks_nonneg(g, outs(g, v), (k - 1) as nat, nd2, nf2);
    }
}

proof fn lemma_sum_walks_nonneg(g: Seq<Device>, os: Seq<Seq<char>>, k: nat, nd: bool, nf: bool)
    ensures
        sum_walks(g, os, k, nd, nf) >= 0,
    decreases k, os.len() + 1,
{
    if os.len() > 0 {
        lemma_sum_walks_nonneg(g, os.drop_last(), k, nd, nf);
        lemma_walks_nonneg(g, os.last(), k, nd, nf);
    }
}

proof fn lemma_sum_prefix(g: Seq<Device>, os: Seq<Seq<char>>, q: int, k: nat, nd: bool, nf: bool)
    requires
        0 <= q <= os.len(),
    ensures
        sum_walks(g, os.subrange(0, q), k, nd, nf) <= sum_walks(g, os, k, nd, nf),
    decreases os.len() - q,
{
    if q < os.len() {
        lemma_sum_prefix(g, os, q + 1, k, nd, nf);
        assert(os.subrange(0, q + 1).drop_last() =~= os.subrange(0, q));
        lemma_walks_nonneg(g, os[q], k, nd, nf);
    } else {
        assert(os.subrange(0, q) =~= os);
    }
}

pub open spec fn state_nd(s: int) -> bool {
    s >= 2
}

pub open spec fn state_nf(s: int) -> bool {
    s == 1 || s == 3
}

/// The targets of each line's outputs: the index of the line describing the
/// output, -1 for `out`, -2 for a device without a line.
pub open spec fn targets_ok(g: Seq<Device>, tg: Seq<Vec<i128>>) -> bool {
    &&& tg.len() == g.len()
    &&& forall|i: int| 0 <= i < g.len() ==> (#[trigger] tg[i])@.len() == g[i].1.len()
    &&& forall|i: int, q: int| 0 <= i < g.len() && 0 <= q < g[i].1.len() ==> {
        let o = g[i].1[q];
        let c = #[trigger] tg[i]@[q];
        if o == "out"@ {
            c == -1
        } else if last_index(g, o) >= 0 {
            c == last_index(g, o)
        } else {
            c == -2
        }
    }
}

fn targets(g: &Vec<(Vec<char>, Vec<Vec<char>>)>, out_word: &Vec<char>) -> (r: Vec<Vec<i128>>)
    requires
        out_word@ == "out"@,
    ensures
        targets_ok(graph_view(g@), r@),
{
    let ghost gv = graph_view(g@);
    let mut tg: Vec<Vec<i128>> = Vec::new();
    let mut i: usize = 0;
    while i < g.len()
        invariant
            i <= g.len(),
            gv == graph_view(g@),
            out_word@ == "out"@,
            tg.len() == i,
            forall|a: int| 0 <= a < i ==> (#[trigger] tg@[a])@.len() == gv[a].1.len(),
            forall|a: int, q: int| 0 <= a < i && 0 <= q < gv[a].1.len() ==> {
                let o = gv[a].1[q];
                let c = #[trigger] tg@[a]@[q];
                if o == "out"@ {
                    c == -1
                } else if last_index(gv, o) >= 0 {
                    c == last_index(gv, o)
                } else {
                    c == -2
                }
            },
        decreases g.len() - i,
    {
        let outs_i = &g[i].1;
        assert(gv[i as int].1 == views_of(outs_i@));
        let mut row: Vec<i128> = Vec::new();
        let mut q: usize = 0;
        while q < outs_i.len()
            invariant
                q <= outs_i.len(),
                i < g.len(),
                gv == graph_view(g@),
                out_word@ == "out"@,
                *outs_i == g@[i as int].1,
                gv[i as int].1 == views_of(outs_i@),
                row.len() == q,
                forall|b: int| 0 <= b < q ==> {
                    let o = gv[i as int].1[b];
                    let c = #[trigger] row@[b];
                    if o == "out"@ {
                        c == -1
                    } else if last_index(gv, o) >= 0 {
                        c == last_index(gv, o)
                    } else {
                        c == -2
                    }
                },
            decreases outs_i.len() - q,
        {
            let o = &outs_i[q];
            assert(gv[i as int].1[q as int] == o@);
            proof { lemma_last_index(gv, o@); }
            let c: i128 = if same_chars(o, out_word) {
                -1
            } else {
                match find_last(g, o) {
                    Some(j) => j as i128,
                    None => -2,
                }
            };
            row.push(c);
            q += 1;
        }
        tg.push(row);
        i += 1;
    }
    tg
}

/// The previous layer of counts: for each state and line, the count of
/// ways in at most `k` steps.
pub open spec fn layer_ok(g: Seq<Device>, t: Seq<Vec<u128>>, k: nat) -> bool {
    &&& t.len() == 4
    &&& forall|s: int| 0 <= s < 4 ==> (#[trigger] t[s])@.len() == g.len()
    &&& forall|s: int, j: int|
        0 <= s < 4 && 0 <= j < g.len() ==> #[trigger] t[s]@[j] == entry_walks(
            g,
            j,
            k,
            state_nd(s),
            state_nf(s),
        )
}

fn entry_value(
    g: &Vec<(Vec<char>, Vec<Vec<char>>)>,
    tg: &Vec<Vec<i128>>,
    prev: &Vec<Vec<u128>>,
    i: usize,
    s: usize,
    k: usize,
    out_word: &Vec<char>,
    dac_word: &Vec<char>,
    fft_word: &Vec<char>,
) -> (r: Option<u128>)
    requires
        targets_ok(graph_view(g@), tg@),
        i < g.len(),
        s < 4,
        out_word@ == "out"@,
        dac_word@ == "dac"@,
        fft_word@ == "fft"@,
        k >= 1 ==> layer_ok(graph_view(g@), prev@, (k - 1) as nat),
    ensures
        match r {
            Some(v) => v == entry_walks(graph_view(g@), i as int, k as nat, state_nd(s as int), state_nf(s as int)),
            None => entry_walks(graph_view(g@), i as int, k as nat, state_nd(s as int), state_nf(s as int)) > u128::MAX,
        },
{
    let ghost gv = graph_view(g@);
    let name = &g[i].0;
    assert(gv[i as int].0 == name@);
    let nd = s >= 2;
    let nf = s == 1 || s == 3;
    let nd2 = nd && !same_chars(name, dac_word);
    let nf2 = nf && !same_chars(name, fft_word);
    if same_chars(name, out_word) {
        return Some(
            if !nd2 && !nf2 {
                1
            } else {
                0
            },
        );
    }
    if k == 0 {
        return Some(0);
    }
    let s2: usize = (if nd2 {
        2
    } else {
        0
    }) + (if nf2 {
        1
    } else {
        0
    });
    let out_is_dac = same_chars(out_word, dac_word);
    let out_is_fft = same_chars(out_word, fft_word);
    let ghost os = gv[i as int].1;
    let row = &tg[i];
    assert(row@.len() == os.len());
    assert(entry_walks(gv, i as int, k as nat, state_nd(s as int), state_nf(s as int)) == sum_walks(gv, os, (k - 1) as nat, nd2, nf2));
    let mut acc: u128 = 0;
    let mut q: usize = 0;
    while q < row.len()
        invariant
            q <= row.len() == os.len(),
            gv == graph_view(g@),
            os == gv[i as int].1,
            i < g.len(),
            k >= 1,
            *row == tg@[i as int],
            targets_ok(gv, tg@),
            layer_ok(gv, prev@, (k - 1) as nat),
            s2 < 4,
            state_nd(s2 as int) == nd2,
            state_nf(s2 as int) == nf2,
            out_is_dac == ("out"@ == "dac"@),
            out_is_fft == ("out"@ == "fft"@),
            acc == sum_walks(gv, os.subrange(0, q as int), (k - 1) as nat, nd2, nf2),
            entry_walks(gv, i as int, k as nat, state_nd(s as int), state_nf(s as int)) == sum_walks(gv, os, (k - 1) as nat, nd2, nf2),
        decreases row.len() - q,
    {
        let c = row[q];
        let ghost o = os[q as int];
        assert(c == tg@[i as int]@[q as int]);
        proof {
            lemma_last_index(gv, o);
        }
        let w: u128 = if c == -1 {
            let nd3 = nd2 && !out_is_dac;
            let nf3 = nf2 && !out_is_fft;
            if !nd3 && !nf3 {
                1
            } else {
                0
            }
        } else if c == -2 {
            0
        } else {
            let j = c as usize;
            proof {
                lemma_entry_is_walks(gv, o, (k - 1) as nat, nd2, nf2);
            }
            prev[s2][j]
        };
        assert(w == walks(gv, o, (k - 1) as nat, nd2, nf2));
        assert(os.subrange(0, q + 1).drop_last() =~= os.subrange(0, q as int));
        assert(os.subrange(0, q + 1).last() == o);
        match acc.checked_add(w) {
            Some(v) => {
                acc = v;
            },
            None => {
                proof {
                    lemma_sum_prefix(gv, os, q + 1, (k - 1) as nat, nd2, nf2);
                    assert(sum_walks(gv, os.subrange(0, q + 1), (k - 1) as nat, nd2, nf2) == acc + w);
                }
                return None;
            },
        }
        q += 1;
    }
    assert(os.subrange(0, os.len() as int) =~= os);
    Some(acc)
}

fn layer(
    g: &Vec<(Vec<char>, Vec<Vec<char>>)>,
    tg: &Vec<Vec<i128>>,
    prev: &Vec<Vec<u128>>,
    k: usize,
    out_word: &Vec<char>,
    dac_word: &Vec<char>,
    fft_word: &Vec<char>,
) -> (r: Option<Vec<Vec<u128>>>)
    requires
        targets_ok(graph_view(g@), tg@),
        out_word@ == "out"@,
        dac_word@ == "dac"@,
        fft_word@ == "fft"@,
        k >= 1 ==> layer_ok(graph_view(g@), prev@, (k - 1) as nat),
    ensures
        match r {
            Some(t) => layer_ok(graph_view(g@), t@, k as nat),
            None => !counts_fit(graph_view(g@), k as nat),
        },
{
    let ghost gv = graph_view(g@);
    let mut t: Vec<Vec<u128>> = Vec::new();
    let mut s: usize = 0;
    while s < 4
        invariant
            s <= 4,
            t.len() == s,
            gv == graph_view(g@),
            targets_ok(gv, tg@),
            out_word@ == "out"@,
            dac_word@ == "dac"@,
            fft_word@ == "fft"@,
            k >= 1 ==> layer_ok(gv, prev@, (k - 1) as nat),
            forall|a: int| 0 <= a < s ==> (#[trigger] t@[a])@.len() == gv.len(),
            forall|a: int, j: int|
                0 <= a < s && 0 <= j < gv.len() ==> #[trigger] t@[a]@[j] == entry_walks(
                    gv,
                    j,
                    k as nat,
                    state_nd(a),
                    state_nf(a),
                ),
        decreases 4 - s,
    {
        let mut row: Vec<u128> = Vec::new();
        let mut i: usize = 0;
        while i < g.len()
            invariant
                i <= g.len(),
                s < 4,
                row.len() == i,
                gv == graph_view(g@),
                targets_ok(gv, tg@),
                out_word@ == "out"@,
                dac_word@ == "dac"@,
                fft_word@ == "fft"@,
                k >= 1 ==> layer_ok(gv, prev@, (k - 1) as nat),
                forall|j: int| 0 <= j < i ==> #[trigger] row@[j] == entry_walks(
                    gv,
                    j,
                    k as nat,
                    state_nd(s as int),
                    state_nf(s as int),
                ),
            decreases g.len() - i,
        {
            match entry_value(g, tg, prev, i, s, k, out_word, dac_word, fft_word) {
                Some(v) => row.push(v),
                None => {
                    assert(!(entry_walks(gv, i as int, k as nat, state_nd(s as int), state_nf(s as int)) <= u128::MAX));
                    return None;
                },
            }
            i += 1;
        }
        t.push(row);
        s += 1;
    }
    Some(t)
}

fn state_of(nd: bool, nf: bool) -> (s: usize)
    ensures
        s < 4,
        state_nd(s as int) == nd,
        state_nf(s as int) == nf,
{
    (if nd {
        2
    } else {
        0
    }) + (if nf {
        1
    } else {
        0
    })
}

/// The number of ways from `from` to `out`, in at most as many steps as
/// there are lines, through the devices asked for; `None` when the counts do
/// not fit in `u128`.
fn count_ways(g: &Vec<(Vec<char>, Vec<Vec<char>>)>, from: &str, nd: bool, nf: bool) -> (r: Option<u128>)
    ensures
        match r {
            Some(v) => counts_fit(graph_view(g@), g.len() as nat) && v == walks(
                graph_view(g@),
                from@,
                g.len() as nat,
                nd,
                nf,
            ),
            None => !counts_fit(graph_view(g@), g.len() as nat),
        },
{
    let ghost gv = graph_view(g@);
    let out_word = chars_of("out");
    let dac_word = chars_of("dac");
    let fft_word = chars_of("fft");
    let from_word = chars_of(from);
    let tg = targets(g, &out_word);
    let n = g.len();
    let empty: Vec<Vec<u128>> = Vec::new();
    let mut t = match layer(g, &tg, &empty, 0, &out_word, &dac_word, &fft_word) {
        Some(t) => t,
        None => return None,
    };
    proof {
        assert forall|i: int, k2: nat, a: bool, b: bool|
            0 <= i < gv.len() && k2 <= 0 implies #[trigger] entry_walks(gv, i, k2, a, b) <= u128::MAX by {
            let s = (if a { 2int } else { 0int }) + (if b { 1int } else { 0int });
            assert(t@[s]@[i] == entry_walks(gv, i, 0, state_nd(s), state_nf(s)));
        }
    }
    let mut k: usize = 0;
    while k < n
        invariant
            k <= n == g.len(),
            gv == graph_view(g@),
            targets_ok(gv, tg@),
            out_word@ == "out"@,
            dac_word@ == "dac"@,
            fft_word@ == "fft"@,
            layer_ok(gv, t@, k as nat),
            forall|i: int, k2: nat, a: bool, b: bool|
                0 <= i < gv.len() && k2 <= k ==> #[trigger] entry_walks(gv, i, k2, a, b) <= u128::MAX,
        decreases n - k,
    {
        let next = match layer(g, &tg, &t, k + 1, &out_word, &dac_word, &fft_word) {
            Some(x) => x,
            None => return None,
        };
        proof {
            assert forall|i: int, k2: nat, a: bool, b: bool|
                0 <= i < gv.len() && k2 <= k + 1 implies #[trigger] entry_walks(gv, i, k2, a, b) <= u128::MAX by {
                if k2 == k + 1 {
                    let s = (if a { 2int } else { 0int }) + (if b { 1int } else { 0int });
                    assert(next@[s]@[i] == entry_walks(gv, i, k2, state_nd(s), state_nf(s)));
                }
            }
        }
        t = next;
        k += 1;
    }
    let nd2 = nd && !same_chars(&from_word, &dac_word);
    let nf2 = nf && !same_chars(&from_word, &fft_word);
    if same_chars(&from_word, &out_word) {
        return Some(
            if !nd2 && !nf2 {
                1
            } else {
                0
            },
        );
    }
    if n == 0 {
        return Some(0);
    }
    match find_last(g, &from_word) {
        Some(j) => {
            proof {
                lemma_last_index(gv, from@);
                lemma_entry_is_walks(gv, from@, n as nat, nd, nf);
            }
            let s = state_of(nd, nf);
            Some(t[s][j])
        },
        None => {
            proof {
                lemma_last_index(gv, from@);
            }
            Some(0)
        },
    }
}

fn answer(devices: &Option<Vec<(Vec<char>, Vec<Vec<char>>)>>, from: &str, nd: bool, nf: bool) -> (r: String)
    ensures
        r@ == answer_for(
            match devices {
                Some(v) => Some(graph_view(v@)),
                None => None,
            },
            from@,
            nd,
            nf,
        ),
{
    match devices {
        Some(g) => match count_ways(g, from, nd, nf) {
            Some(v) => decimal_u128(v),
            None => String::new(),
        },
        None => String::new(),
    }
}

impl Solver for Day11Solver {
    open spec fn holds_input(&self, input: Seq<char>) -> bool {
        self.graph() == parse_devices(input)
    }

    /// The ways from `you` to `out`.
    open spec fn answer_one(&self) -> Seq<char> {
        answer_for(self.graph(), "you"@, false, false)
    }

    /// The ways from `svr` to `out` that pass through both `dac` and `fft`.
    open spec fn answer_two(&self) -> Seq<char> {
        answer_for(self.graph(), "svr"@, true, true)
    }

    fn presolve(&mut self, input: &str) {
        self.devices = parse_input(input);
    }

    fn solve_part_one(&mut self) -> (r: String) {
        answer(&self.devices, "you", false, false)
    }

    fn solve_part_two(&mut self) -> (r: String) {
        answer(&self.devices, "svr", true, true)
    }
}

/// A solver with no input yet.
pub fn solver() -> (r: Day11Solver)
    ensures
        r.devices is None,
{
    Day11Solver { devices: None }
}

} // verus!
