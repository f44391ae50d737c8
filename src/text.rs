//! Character-level helpers: decimal rendering and integer parsing over
//! sequences of characters, each stated against a small spec function.
use vstd::prelude::*;

verus! {

broadcast use vstd::string::group_string_axioms;

pub open spec fn is_digit(c: char) -> bool {
    '0' <= c && c <= '9'
}

pub open spec fn all_digits(s: Seq<char>) -> bool {
    forall|i: int| 0 <= i < s.len() ==> is_digit(#[trigger] s[i])
}

/// The value of a decimal digit character.
pub open spec fn digit_value(c: char) -> int {
    c as int - '0' as int
}

/// The character of a decimal digit `d` (0 to 9).
pub open spec fn digit_char(d: int) -> char {
    ((d + 48) as u8) as char
}

/// The value of a string of decimal digits, most significant first.
pub open spec fn digits_value(s: Seq<char>) -> int
    decreases s.len(),
{
    if s.len() == 0 {
        0
    } else {
        digits_value(s.drop_last()) * 10 + digit_value(s.last())
    }
}

/// The decimal text of a natural number, without leading zeros.
pub open spec fn decimal_of_nat(n: nat) -> Seq<char>
    decreases n,
{
    if n < 10 {
        seq![digit_char(n as int)]
    } else {
        decimal_of_nat(n / 10).push(digit_char((n % 10) as int))
    }
}

/// The decimal text of an integer, with a leading `-` when negative.
pub open spec fn decimal_of(n: int) -> Seq<char> {
    if n < 0 {
        seq!['-'] + decimal_of_nat((-n) as nat)
    } else {
        decimal_of_nat(n as nat)
    }
}

/// What a string of one or more decimal digits denotes; `None` for any other text.
pub open spec fn unsigned_value(s: Seq<char>) -> Option<int> {
    if s.len() > 0 && all_digits(s) {
        Some(digits_value(s))
    } else {
        None
    }
}

/// A string of decimal digits whose value fits in `u64`.
pub open spec fn u64_value(t: Seq<char>) -> Option<int> {
    match unsigned_value(t) {
        Some(v) => if 0 <= v <= u64::MAX {
            Some(v)
        } else {
            None
        },
        None => None,
    }
}

/// The integer that `s` writes: an optional `+` or `-`, then one or more
/// decimal digits. `None` for any other text.
pub open spec fn integer_value(s: Seq<char>) -> Option<int> {
    if s.len() > 0 && s[0] == '-' {
        match unsigned_value(s.drop_first()) {
            Some(v) => Some(-v),
            None => None,
        }
    } else if s.len() > 0 && s[0] == '+' {
        unsigned_value(s.drop_first())
    } else {
        unsigned_value(s)
    }
}

/// Relies on `String::push`: appends one character.
#[verifier::external_body]
pub fn push_char(s: &mut String, c: char)
    ensures
        final(s)@ == old(s)@.push(c),
{
    s.push(c);
}

/// The characters of `s`, in order.
pub fn chars_of(s: &str) -> (r: Vec<char>)
    ensures
        r@ == s@,
{
    let mut r: Vec<char> = Vec::new();
    for c in it: s.chars()
        invariant
            r@ == it.seq().subrange(0, it.index() as int),
            it.seq() == s@,
    {
        r.push(c);
    }
    r
}

/// A `String` holding the characters `v[lo..hi]`.
pub fn string_of(v: &Vec<char>, lo: usize, hi: usize) -> (r: String)
    requires
        lo <= hi <= v.len(),
    ensures
        r@ == v@.subrange(lo as int, hi as int),
{
    let mut r = String::new();
    let mut i: usize = lo;
    while i < hi
        invariant
            lo <= i <= hi <= v.len(),
            r@ == v@.subrange(lo as int, i as int),
        decreases hi - i,
    {
        push_char(&mut r, v[i]);
        assert(v@.subrange(lo as int, i + 1) == v@.subrange(lo as int, i as int).push(v@[i as int]));
        i += 1;
    }
    r
}

/// The decimal text of `n`.
pub fn decimal_u64(n: u64) -> (r: String)
    ensures
        r@ == decimal_of_nat(n as nat),
{
    decimal_u128(n as u128)
}

/// The decimal text of `n`.
pub fn decimal_u128(n: u128) -> (r: String)
    ensures
        r@ == decimal_of_nat(n as nat),
        r@ == decimal_of(n as int),
{
    let mut m: u128 = n;
    let mut rev: Vec<char> = Vec::new();
    while m >= 10
        invariant
            decimal_of_nat(n as nat) == decimal_of_nat(m as nat) + rev@.reverse(),
        decreases m,
    {
        let d: u128 = m % 10;
        let c = ((d as u8) + 48u8) as char;
        assert(rev@.push(c).reverse() =~= seq![c] + rev@.reverse());
        assert(decimal_of_nat(m as nat) == decimal_of_nat((m / 10) as nat).push(c));
        assert(decimal_of_nat((m / 10) as nat).push(c) + rev@.reverse() =~= decimal_of_nat(
            (m / 10) as nat,
        ) + rev@.push(c).reverse());
        rev.push(c);
        m = m / 10;
    }
    let c = ((m as u8) + 48u8) as char;
    assert(rev@.push(c).reverse() =~= seq![c] + rev@.reverse());
    rev.push(c);
    let mut r = String::new();
    let mut k: usize = rev.len();
    while k > 0
        invariant
            k <= rev.len(),
            r@ == rev@.reverse().subrange(0, (rev.len() - k) as int),
        decreases k,
    {
        k -= 1;
        push_char(&mut r, rev[k]);
        assert(rev@.reverse().subrange(0, (rev.len() - k) as int) =~= rev@.reverse().subrange(
            0,
            (rev.len() - k - 1) as int,
        ).push(rev@[k as int]));
    }
    assert(rev@.reverse().subrange(0, rev.len() as int) =~= rev@.reverse());
    r
}

/// The decimal text of `n`, with a leading `-` when negative.
pub fn decimal_i64(n: i64) -> (r: String)
    ensures
        r@ == decimal_of(n as int),
{
    if n < 0 {
        let magnitude: u64 = (0i128 - n as i128) as u64;
        let digits = decimal_u64(magnitude);
        let mut r = String::new();
        push_char(&mut r, '-');
        r.append(digits.as_str());
        assert(r@ =~= seq!['-'] + decimal_of_nat((-n) as nat));
        r
    } else {
        decimal_u64(n as u64)
    }
}

/// The decimal text of `n`, with a leading `-` when negative.
pub fn decimal_i128(n: i128) -> (r: String)
    ensures
        r@ == decimal_of(n as int),
{
    if n < 0 {
        let magnitude: u128 = if n == i128::MIN {
            0x8000_0000_0000_0000_0000_0000_0000_0000u128
        } else {
            (0 - n) as u128
        };
        let digits = decimal_u128(magnitude);
        let mut r = String::new();
        push_char(&mut r, '-');
        r.append(digits.as_str());
        assert(r@ =~= seq!['-'] + decimal_of_nat((-n) as nat));
        r
    } else {
        decimal_u128(n as u128)
    }
}

proof fn lemma_digits_value_step(s: Seq<char>, lo: int, i: int)
    requires
        0 <= lo <= i < s.len(),
    ensures
        digits_value(s.subrange(lo, i + 1)) == digits_value(s.subrange(lo, i)) * 10
            + digit_value(s[i]),
{
    assert(s.subrange(lo, i + 1).drop_last() =~= s.subrange(lo, i));
}

proof fn lemma_digits_value_grows(s: Seq<char>, lo: int, i: int, j: int)
    requires
        0 <= lo <= i <= j <= s.len(),
        all_digits(s.subrange(lo, j)),
    ensures
        digits_value(s.subrange(lo, i)) <= digits_value(s.subrange(lo, j)),
    decreases j - i,
{
    if i < j {
        lemma_digits_value_grows(s, lo, i, j - 1);
        lemma_digits_value_step(s, lo, j - 1);
        assert(s.subrange(lo, j)[j - 1 - lo] == s[j - 1]);
        lemma_digits_value_nonneg(s.subrange(lo, j - 1));
    }
}

pub proof fn lemma_digits_value_nonneg(s: Seq<char>)
    requires
        all_digits(s),
    ensures
        digits_value(s) >= 0,
    decreases s.len(),
{
    if s.len() > 0 {
        assert(all_digits(s.drop_last()));
        lemma_digits_value_nonneg(s.drop_last());
        assert(is_digit(s[s.len() - 1]));
    }
}

/// The value of the digits `s[lo..hi]`, when there is at least one, all are
/// decimal digits, and the value fits in `u64`.
pub fn parse_digits(s: &Vec<char>, lo: usize, hi: usize) -> (r: Option<u64>)
    requires
        lo <= hi <= s.len(),
    ensures
        r == (match u64_value(s@.subrange(lo as int, hi as int)) {
            Some(v) => Some(v as u64),
            None => None,
        }),
{
    let ghost sub = s@.subrange(lo as int, hi as int);
    if lo == hi {
        return None;
    }
    let mut acc: u64 = 0;
    let mut i: usize = lo;
    while i < hi
        invariant
            lo <= i <= hi <= s.len(),
            sub == s@.subrange(lo as int, hi as int),
            all_digits(s@.subrange(lo as int, i as int)),
            acc as int == digits_value(s@.subrange(lo as int, i as int)),
        decreases hi - i,
    {
        let c = s[i];
        if !('0' <= c && c <= '9') {
            assert(sub[i - lo] == c);
            return None;
        }
        proof {
            lemma_digits_value_step(s@, lo as int, i as int);
            assert(s@.subrange(lo as int, i + 1) =~= s@.subrange(lo as int, i as int).push(c));
        }
        let d: u64 = (c as u32 - 48) as u64;
        match acc.checked_mul(10) {
            Some(t) => match t.checked_add(d) {
                Some(u) => {
                    acc = u;
                },
                None => {
                    proof { overflow_is_final(s@, lo as int, i as int, hi as int); }
                    return None;
                },
            },
            None => {
                proof {
                    lemma_digits_value_nonneg(s@.subrange(lo as int, i as int));
                    overflow_is_final(s@, lo as int, i as int, hi as int);
                }
                return None;
            },
        }
        i += 1;
    }
    assert(s@.subrange(lo as int, i as int) == sub);
    Some(acc)
}

/// Once a prefix of digits overflows, the whole text either holds a
/// non-digit or overflows too.
proof fn overflow_is_final(s: Seq<char>, lo: int, i: int, hi: int)
    requires
        0 <= lo <= i < hi <= s.len(),
        digits_value(s.subrange(lo, i + 1)) > u64::MAX,
    ensures
        match unsigned_value(s.subrange(lo, hi)) {
            Some(v) => v > u64::MAX,
            None => true,
        },
{
    if all_digits(s.subrange(lo, hi)) {
        assert(all_digits(s.subrange(lo, hi)) ==> all_digits(s.subrange(lo, i + 1))) by {
            assert forall|k: int| 0 <= k < i + 1 - lo implies is_digit(
                #[trigger] s.subrange(lo, i + 1)[k],
            ) by {
                assert(s.subrange(lo, i + 1)[k] == s.subrange(lo, hi)[k]);
            }
        }
        lemma_digits_value_grows(s, lo, i + 1, hi);
    }
}

/// The pieces of `s` between occurrences of `sep`: `n` separators give
/// `n + 1` pieces, some perhaps empty.
pub open spec fn split_on(s: Seq<char>, sep: char) -> Seq<Seq<char>>
    decreases s.len(),
{
    if s.len() == 0 {
        seq![Seq::<char>::empty()]
    } else {
        let p = split_on(s.drop_last(), sep);
        if s.last() == sep {
            p.push(Seq::<char>::empty())
        } else {
            p.update(p.len() - 1, p.last().push(s.last()))
        }
    }
}

proof fn lemma_split_on_nonempty(s: Seq<char>, sep: char)
    ensures
        split_on(s, sep).len() >= 1,
    decreases s.len(),
{
    if s.len() > 0 {
        lemma_split_on_nonempty(s.drop_last(), sep);
    }
}

pub open spec fn views_of(v: Seq<Vec<char>>) -> Seq<Seq<char>> {
    v.map_values(|x: Vec<char>| x@)
}

/// Splits `s` at each `sep`.
pub fn split_chars(s: &Vec<char>, sep: char) -> (r: Vec<Vec<char>>)
    ensures
        views_of(r@) == split_on(s@, sep),
{
    let mut out: Vec<Vec<char>> = Vec::new();
    let mut cur: Vec<char> = Vec::new();
    let mut i: usize = 0;
    while i < s.len()
        invariant
            i <= s.len(),
            views_of(out@).push(cur@) == split_on(s@.subrange(0, i as int), sep),
        decreases s.len() - i,
    {
        let c = s[i];
        let ghost before = views_of(out@).push(cur@);
        proof {
            assert(s@.subrange(0, i + 1).drop_last() =~= s@.subrange(0, i as int));
            lemma_split_on_nonempty(s@.subrange(0, i as int), sep);
        }
        if c == sep {
            let done = cur;
            out.push(done);
            cur = Vec::new();
            assert(views_of(out@).push(cur@) =~= before.push(Seq::<char>::empty()));
        } else {
            cur.push(c);
            assert(views_of(out@).push(cur@) =~= before.update(
                before.len() - 1,
                before.last().push(c),
            ));
        }
        i += 1;
    }
    out.push(cur);
    assert(s@.subrange(0, s.len() as int) =~= s@);
    assert(views_of(out@) =~= split_on(s@, sep));
    out
}

pub open spec fn group_view(g: Option<String>) -> Option<Seq<char>> {
    match g {
        Some(s) => Some(s@),
        None => None,
    }
}

pub open spec fn match_view(m: Vec<Option<String>>) -> Seq<Option<Seq<char>>> {
    m@.map_values(|g: Option<String>| group_view(g))
}

pub open spec fn matches_view(r: Option<Vec<Vec<Option<String>>>>) -> Option<
    Seq<Seq<Option<Seq<char>>>>,
> {
    match r {
        Some(v) => Some(v@.map_values(|m: Vec<Option<String>>| match_view(m))),
        None => None,
    }
}

/// The capture groups of each successive non-overlapping match of
/// `pattern` in `text`, left to right; in each, group 0 (the whole match)
/// first, and `None` for a group that took no part. `None` when the pattern
/// does not compile.
pub uninterp spec fn regex_all_captures(pattern: Seq<char>, text: Seq<char>) -> Option<
    Seq<Seq<Option<Seq<char>>>>,
>;

/// Relies on `regex::Regex::new` and `Regex::captures_iter`: every match,
/// left to right, with the text of each of its groups.
#[verifier::external_body]
pub(crate) fn regex_captures_all(pattern: &str, text: &str) -> (r: Option<Vec<Vec<Option<String>>>>)
    ensures
        matches_view(r) == regex_all_captures(pattern@, text@),
{
    let re = regex::Regex::new(pattern).ok()?;
    Some(
        re.captures_iter(text).map(|c| c.iter().map(|g| g.map(|m| m.as_str().to_string())).collect())
            .collect(),
    )
}

} // verus!
