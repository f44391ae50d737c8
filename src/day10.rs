//! Machines with indicator lights, buttons that toggle sets of lights, and
//! joltage requirements: `[.##.] (3) (1,3) (2) {3,5,4,7}`.
use vstd::prelude::*;

use crate::text::{chars_of, parse_digits, split_chars, split_on, u64_value, views_of};

verus! {

/// The light pattern between the brackets, as a number: light `k` (from
/// the left, counting from 0) is bit `k`, set when the light is on (`#`).
pub open spec fn lights_value(p: Seq<char>) -> int
    decreases p.len(),
{
    if p.len() == 0 {
        0
    } else {
        (if p[0] == '#' {
            1int
        } else {
            0int
        }) + 2 * lights_value(p.drop_first())
    }
}

pub open spec fn pow2(n: nat) -> int
    decreases n,
{
    if n == 0 {
        1
    } else {
        2 * pow2((n - 1) as nat)
    }
}

proof fn lemma_lights_bound(p: Seq<char>)
    ensures
        0 <= lights_value(p) < pow2(p.len()),
    decreases p.len(),
{
    if p.len() > 0 {
        lemma_lights_bound(p.drop_first());
        assert(pow2(p.len()) == 2 * pow2(p.drop_first().len()));
    }
}

/// Reads a light pattern `[...]`: its value and the number of lights.
pub fn parse_light_pattern(input: &str) -> (r: (u64, u8))
    requires
        input@.len() >= 2,
        input@[0] == '[',
        input@.last() == ']',
        input@.len() - 2 <= 64,
    ensures
        r.0 == lights_value(input@.subrange(1, input@.len() - 1)),
        r.1 == input@.len() - 2,
{
    let chars = chars_of(input);
    let n = chars.len();
    let ghost p = chars@.subrange(1, n - 1);
    let mut res: u64 = 0;
    let mut count: u8 = 0;
    let mut i: usize = n - 1;
    proof {
        reveal_with_fuel(pow2, 65);
        assert(pow2(64) == 0x1_0000_0000_0000_0000);
    }
    while i > 1
        invariant
            1 <= i <= n - 1,
            n == chars.len(),
            n - 2 <= 64,
            p == chars@.subrange(1, n - 1),
            res == lights_value(chars@.subrange(i as int, n - 1)),
            count == n - 1 - i,
            pow2(64) == 0x1_0000_0000_0000_0000,
        decreases i,
    {
        i -= 1;
        let ghost tail = chars@.subrange(i as int, n - 1);
        assert(tail.drop_first() =~= chars@.subrange(i + 1, n - 1));
        proof {
            lemma_lights_bound(tail);
            lemma_pow2_mono(tail.len(), 64);
        }
        let bit: u64 = if chars[i] == '#' {
            1
        } else {
            0
        };
        res = res * 2 + bit;
        count += 1;
    }
    (res, count)
}

proof fn lemma_pow2_mono(a: nat, b: nat)
    requires
        a <= b,
    ensures
        pow2(a) <= pow2(b),
    decreases b,
{
    if a < b {
        lemma_pow2_mono(a, (b - 1) as nat);
        lemma_pow2_pos((b - 1) as nat);
    }
}

proof fn lemma_pow2_pos(n: nat)
    ensures
        pow2(n) >= 1,
    decreases n,
{
    if n > 0 {
        lemma_pow2_pos((n - 1) as nat);
    }
}

/// Bit `k` of `x` is set.
pub open spec fn bit(x: u64, k: u64) -> bool {
    (x >> k) & 1 == 1
}

/// The numbers between the delimiters, separated by commas.
pub open spec fn listed(s: Seq<char>) -> Seq<Option<int>> {
    split_on(s.subrange(1, s.len() - 1), ',').map_values(|t: Seq<char>| u64_value(t))
}

/// A button `(i,j,...)`: the lights it toggles, each below 64.
pub open spec fn button_ok(s: Seq<char>) -> bool {
    &&& s.len() >= 2
    &&& s[0] == '('
    &&& s.last() == ')'
    &&& forall|i: int|
        0 <= i < listed(s).len() ==> (#[trigger] listed(s)[i]) is Some && listed(s)[i]->0 < 64
}

proof fn lemma_or_bit(x: u64, i: u64, k: u64)
    requires
        i < 64,
        k < 64,
    ensures
        bit(x | (1u64 << i), k) == (bit(x, k) || k == i),
{
    assert(((x | (1u64 << i)) >> k) & 1 == 1 <==> (((x >> k) & 1 == 1) || k == i)) by (bit_vector)
        requires
            i < 64,
            k < 64,
    ;
}

proof fn lemma_zero_bits(k: u64)
    requires
        k < 64,
    ensures
        !bit(0, k),
{
    assert((0u64 >> k) & 1 != 1) by (bit_vector);
}

/// Reads a button `(i,j,...)` as the mask of the lights it toggles.
pub fn parse_button(input: &str) -> (r: u64)
    requires
        button_ok(input@),
    ensures
        forall|k: u64|
            k < 64 ==> (bit(r, k) <==> exists|i: int|
                0 <= i < listed(input@).len() && #[trigger] listed(input@)[i] == Some(k as int)),
{
    let chars = chars_of(input);
    let n = chars.len();
    let mut inner: Vec<char> = Vec::new();
    let mut q: usize = 1;
    while q + 1 < n
        invariant
            1 <= q <= n - 1,
            n == chars.len() >= 2,
            inner@ == chars@.subrange(1, q as int),
        decreases n - q,
    {
        inner.push(chars[q]);
        assert(inner@ =~= chars@.subrange(1, q + 1));
        q += 1;
    }
    let pieces = split_chars(&inner, ',');
    let ghost ls = listed(input@);
    assert(views_of(pieces@).len() == pieces.len());
    let mut res: u64 = 0;
    proof {
        assert forall|k: u64| k < 64 implies !bit(res, k) by {
            lemma_zero_bits(k);
        }
    }
    let mut i: usize = 0;
    while i < pieces.len()
        invariant
            i <= pieces.len(),
            ls == listed(input@),
            ls.len() == pieces.len(),
            views_of(pieces@) == split_on(input@.subrange(1, input@.len() - 1), ','),
            button_ok(input@),
            forall|k: u64|
                k < 64 ==> (bit(res, k) <==> exists|j: int| 0 <= j < i && #[trigger] ls[j] == Some(k as int)),
        decreases pieces.len() - i,
    {
        let piece = &pieces[i];
        assert(views_of(pieces@)[i as int] == piece@);
        assert(piece@.subrange(0, piece.len() as int) =~= piece@);
        assert(ls[i as int] is Some);
        let v = match parse_digits(piece, 0, piece.len()) {
            Some(v) => v,
            None => 0,
        };
        assert(ls[i as int] == Some(v as int));
        let old_res = res;
        res = res | (1u64 << v);
        proof {
            assert forall|k: u64| k < 64 implies (bit(res, k) <==> exists|j: int|
                0 <= j < i + 1 && #[trigger] ls[j] == Some(k as int)) by {
                lemma_or_bit(old_res, v, k);
                if k == v {
                    assert(ls[i as int] == Some(k as int));
                }
                if exists|j: int| 0 <= j < i + 1 && #[trigger] ls[j] == Some(k as int) {
                    let j = choose|j: int| 0 <= j < i + 1 && #[trigger] ls[j] == Some(k as int);
                    if j == i {
                        assert(k == v);
                    }
                }
            }
        }
        i += 1;
    }
    res
}

/// A joltage list `{a,b,...}` of numbers.
pub open spec fn joltage_ok(s: Seq<char>) -> bool {
    &&& s.len() >= 2
    &&& s[0] == '{'
    &&& s.last() == '}'
    &&& forall|i: int| 0 <= i < listed(s).len() ==> (#[trigger] listed(s)[i]) is Some
}

/// Reads a joltage list `{a,b,...}`.
pub fn parse_joltage(input: &str) -> (r: Vec<u64>)
    requires
        joltage_ok(input@),
    ensures
        r@.len() == listed(input@).len(),
        forall|i: int| 0 <= i < r@.len() ==> listed(input@)[i] == Some(#[trigger] r@[i] as int),
{
    let chars = chars_of(input);
    let n = chars.len();
    let mut inner: Vec<char> = Vec::new();
    let mut q: usize = 1;
    while q + 1 < n
        invariant
            1 <= q <= n - 1,
            n == chars.len() >= 2,
            inner@ == chars@.subrange(1, q as int),
        decreases n - q,
    {
        inner.push(chars[q]);
        assert(inner@ =~= chars@.subrange(1, q + 1));
        q += 1;
    }
    let pieces = split_chars(&inner, ',');
    let ghost ls = listed(input@);
    assert(views_of(pieces@).len() == pieces.len());
    let mut out: Vec<u64> = Vec::new();
    let mut i: usize = 0;
    while i < pieces.len()
        invariant
            i <= pieces.len(),
            ls == listed(input@),
            ls.len() == pieces.len(),
            views_of(pieces@) == split_on(input@.subrange(1, input@.len() - 1), ','),
            joltage_ok(input@),
            out@.len() == i,
            forall|j: int| 0 <= j < i ==> ls[j] == Some(#[trigger] out@[j] as int),
        decreases pieces.len() - i,
    {
        let piece = &pieces[i];
        assert(views_of(pieces@)[i as int] == piece@);
        assert(piece@.subrange(0, piece.len() as int) =~= piece@);
        assert(ls[i as int] is Some);
        let v = match parse_digits(piece, 0, piece.len()) {
            Some(v) => v,
            None => 0,
        };
        out.push(v);
        i += 1;
    }
    out
}

/// The lights toggled by pressing, once each, the buttons among the first
/// `n` whose bit is set in `c`.
pub open spec fn xor_sel(b: Seq<u64>, c: u64, n: nat) -> u64
    decreases n,
{
    if n == 0 {
        0
    } else {
        let x = xor_sel(b, c, (n - 1) as nat);
        if bit(c, (n - 1) as u64) {
            x ^ b[n - 1]
        } else {
            x
        }
    }
}

/// How many of the first `n` bits of `c` are set.
pub open spec fn ones(c: u64, n: nat) -> nat
    decreases n,
{
    if n == 0 {
        0
    } else {
        ones(c, (n - 1) as nat) + if bit(c, (n - 1) as u64) {
            1nat
        } else {
            0nat
        }
    }
}

/// The fewest presses, over the choices of buttons `c` below `limit`, that
/// turn the lights from all off to `target`; `None` when no choice does.
pub open spec fn fewest(b: Seq<u64>, target: u64, limit: nat) -> Option<nat>
    decreases limit,
{
    if limit == 0 {
        None
    } else {
        let prev = fewest(b, target, (limit - 1) as nat);
        let c = (limit - 1) as u64;
        if xor_sel(b, c, b.len()) == target {
            let k = ones(c, b.len());
            match prev {
                Some(p) => Some(
                    if p <= k {
                        p
                    } else {
                        k
                    },
                ),
                None => Some(k),
            }
        } else {
            prev
        }
    }
}

/// The fewest button presses that light exactly `pattern`, each button
/// pressed at most once; `None` when no set of buttons does.
pub fn fewest_presses(buttons: &Vec<u64>, pattern: u64) -> (r: Option<u32>)
    requires
        buttons.len() < 64,
    ensures
        match r {
            Some(k) => fewest(buttons@, pattern, pow2(buttons.len() as nat) as nat) == Some(k as nat),
            None => fewest(buttons@, pattern, pow2(buttons.len() as nat) as nat) is None,
        },
{
    let n = buttons.len();
    let mut limit: u64 = 1;
    let mut q: usize = 0;
    proof {
        lemma_pow2_mono(0, 63);
    }
    while q < n
        invariant
            q <= n < 64,
            limit == pow2(q as nat),
            pow2(q as nat) <= pow2(63),
        decreases n - q,
    {
        proof {
            lemma_pow2_mono((q + 1) as nat, 63);
            reveal_with_fuel(pow2, 64);
        }
        limit = limit * 2;
        q += 1;
    }
    let mut best: Option<u32> = None;
    let mut c: u64 = 0;
    while c < limit
        invariant
            c <= limit,
            limit == pow2(n as nat),
            n == buttons.len() < 64,
            match best {
                Some(k) => fewest(buttons@, pattern, c as nat) == Some(k as nat),
                None => fewest(buttons@, pattern, c as nat) is None,
            },
        decreases limit - c,
    {
        let mut x: u64 = 0;
        let mut cnt: u32 = 0;
        let mut i: usize = 0;
        while i < n
            invariant
                i <= n == buttons.len() < 64,
                x == xor_sel(buttons@, c, i as nat),
                cnt == ones(c, i as nat),
                cnt <= i,
            decreases n - i,
        {
            if (c >> (i as u64)) & 1 == 1 {
                x = x ^ buttons[i];
                cnt += 1;
            }
            i += 1;
        }
        if x == pattern {
            best = match best {
                Some(b) => Some(
                    if b <= cnt {
                        b
                    } else {
                        cnt
                    },
                ),
                None => Some(cnt),
            };
        }
        c += 1;
    }
    best
}

} // verus!
