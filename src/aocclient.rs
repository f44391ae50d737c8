//! The protocol side of the puzzle platform: the verdict of a submission,
//! the classifier that reads a verdict out of a response body, the session
//! credential store, and the shape of the two requests.
use vstd::prelude::*;

use crate::text::{
    chars_of, decimal_i64, decimal_of, group_view, parse_digits,
    regex_all_captures, regex_captures_all, u64_value,
};

verus! {

broadcast use vstd::string::group_string_axioms;

/// The outcome of one answer submission. `Throttled` carries the number of
/// seconds the platform asks to wait before the next submission.
#[derive(Debug, Clone, Copy, PartialEq, Eq, Structural)]
pub enum ValidationResult {
    Accepted,
    Rejected,
    RejectedTooLow,
    RejectedTooHigh,
    Throttled(u64),
}

/// What the phrase search reports for `text`: for each occurrence found,
/// scanning left to right, the index of the phrase in `phrases`. `None` when
/// no searcher could be built for the phrases.
pub uninterp spec fn phrase_hits(phrases: Seq<Seq<char>>, text: Seq<char>) -> Option<Seq<usize>>;

pub open spec fn phrases_view(p: Seq<String>) -> Seq<Seq<char>> {
    p.map_values(|s: String| s@)
}

pub open spec fn captures_view(c: Option<Vec<Option<String>>>) -> Option<Seq<Option<Seq<char>>>> {
    match c {
        Some(v) => Some(v@.map_values(|g: Option<String>| group_view(g))),
        None => None,
    }
}

/// Relies on `AhoCorasick::new` (default, standard match semantics) and
/// `AhoCorasick::find_iter`: the pattern index of each non-overlapping
/// occurrence, left to right. A pattern index is the position of the pattern
/// in the list it was built from.
#[verifier::external_body]
fn find_phrases(phrases: &Vec<String>, text: &str) -> (r: Option<Vec<usize>>)
    ensures
        match r {
            Some(v) => phrase_hits(phrases_view(phrases@), text@) == Some(v@) && forall|i: int|
                0 <= i < v@.len() ==> #[trigger] v@[i] < phrases@.len(),
            None => phrase_hits(phrases_view(phrases@), text@) is None,
        },
{
    let ac = aho_corasick::AhoCorasick::new(phrases).ok()?;
    Some(ac.find_iter(text).map(|m| m.pattern().as_usize()).collect())
}

/// The phrases the classifier looks for, in the order that gives each its
/// index: throttled, accepted, too high, too low.
pub open spec fn verdict_phrases() -> Seq<Seq<char>> {
    seq![
        "You gave an answer too recently"@,
        "That's the right answer"@,
        "your answer is too high"@,
        "your answer is too low"@,
    ]
}

/// The pattern that gives the wait of a throttled response: optional minutes
/// (group 1), then seconds (group 2).
pub open spec fn wait_pattern() -> Seq<char> {
    "You have (?:(\\d+)m )?(\\d+)s left to wait"@
}

/// The wait, in seconds, that the capture groups of the wait pattern give:
/// seconds plus sixty times the minutes, an absent or empty minutes group
/// counting as zero. `None` where a number cannot be read or the total does
/// not fit in `u64`.
pub open spec fn wait_seconds(groups: Seq<Option<Seq<char>>>) -> Option<int> {
    match seconds_group(groups) {
        Some(s) => match minutes_group(groups) {
            Some(m) => if s + 60 * m <= u64::MAX {
                Some(s + 60 * m)
            } else {
                None
            },
            None => None,
        },
        None => None,
    }
}

pub open spec fn seconds_group(groups: Seq<Option<Seq<char>>>) -> Option<int> {
    if groups.len() > 2 {
        match groups[2] {
            Some(t) => u64_value(t),
            None => None,
        }
    } else {
        None
    }
}

pub open spec fn minutes_group(groups: Seq<Option<Seq<char>>>) -> Option<int> {
    if groups.len() > 1 {
        match groups[1] {
            Some(t) => if t.len() == 0 {
                Some(0)
            } else {
                u64_value(t)
            },
            None => Some(0),
        }
    } else {
        Some(0)
    }
}

/// The verdict of a throttle phrase: `Throttled` with the wait when it can be
/// read from the captures, else `Rejected`.
pub open spec fn throttle_verdict(caps: Option<Seq<Option<Seq<char>>>>) -> ValidationResult {
    match caps {
        Some(g) => match wait_seconds(g) {
            Some(w) => ValidationResult::Throttled(w as u64),
            None => ValidationResult::Rejected,
        },
        None => ValidationResult::Rejected,
    }
}

/// The verdict that the phrase occurrences `hits` give: the last occurrence
/// decides; with none, `Rejected`.
pub open spec fn verdict_of(hits: Seq<usize>, caps: Option<Seq<Option<Seq<char>>>>) -> ValidationResult {
    if hits.len() == 0 {
        ValidationResult::Rejected
    } else if hits.last() == 0 {
        throttle_verdict(caps)
    } else if hits.last() == 1 {
        ValidationResult::Accepted
    } else if hits.last() == 2 {
        ValidationResult::RejectedTooHigh
    } else if hits.last() == 3 {
        ValidationResult::RejectedTooLow
    } else {
        ValidationResult::Rejected
    }
}

/// The capture groups of the first match of the wait pattern in `text`.
pub open spec fn wait_captures(text: Seq<char>) -> Option<Seq<Option<Seq<char>>>> {
    match regex_all_captures(wait_pattern(), text) {
        Some(ms) => if ms.len() > 0 {
            Some(ms[0])
        } else {
            None
        },
        None => None,
    }
}

/// The verdict of a response body in terms of what the two searches report.
pub open spec fn classify(text: Seq<char>) -> ValidationResult {
    match phrase_hits(verdict_phrases(), text) {
        Some(hits) => verdict_of(hits, wait_captures(text)),
        None => ValidationResult::Rejected,
    }
}

fn group_number(g: &Option<String>, absent: Option<u64>) -> (r: Option<u64>)
    ensures
        r == (match group_view(*g) {
            Some(t) => match u64_value(t) {
                Some(v) => Some(v as u64),
                None => None,
            },
            None => absent,
        }),
{
    match g {
        Some(s) => {
            let cs = chars_of(s.as_str());
            assert(cs@.subrange(0, cs.len() as int) =~= s@);
            parse_digits(&cs, 0, cs.len())
        },
        None => absent,
    }
}

/// The wait that the capture groups of the wait pattern give.
pub fn wait_from_groups(groups: &Vec<Option<String>>) -> (r: Option<u64>)
    ensures
        r == (match wait_seconds(groups@.map_values(|g: Option<String>| group_view(g))) {
            Some(w) => Some(w as u64),
            None => None,
        }),
{
    let ghost gv = groups@.map_values(|g: Option<String>| group_view(g));
    if groups.len() <= 2 {
        return None;
    }
    let secs = group_number(&groups[2], None);
    let mins = match &groups[1] {
        Some(t) => {
            let cs = chars_of(t.as_str());
            if cs.len() == 0 {
                Some(0u64)
            } else {
                group_number(&groups[1], Some(0))
            }
        },
        None => Some(0u64),
    };
    assert(gv[1] == group_view(groups@[1]));
    assert(gv[2] == group_view(groups@[2]));
    assert(secs == (match seconds_group(gv) {
        Some(v) => Some(v as u64),
        None => None,
    }));
    assert(mins == (match minutes_group(gv) {
        Some(v) => Some(v as u64),
        None => None,
    }));
    match (secs, mins) {
        (Some(s), Some(m)) => {
            if m <= (u64::MAX - s) / 60 {
                assert(s + 60 * m <= u64::MAX) by (nonlinear_arith)
                    requires
                        m <= (u64::MAX - s) / 60,
                        s <= u64::MAX,
                ;
                Some(s + 60 * m)
            } else {
                assert(s + 60 * m > u64::MAX) by (nonlinear_arith)
                    requires
                        m > (u64::MAX - s) / 60,
                        s <= u64::MAX,
                ;
                None
            }
        },
        _ => None,
    }
}

/// The verdict that the phrase occurrences `hits` and the captures of the
/// wait pattern give: the last occurrence decides.
pub fn verdict_from(hits: &Vec<usize>, captures: &Option<Vec<Option<String>>>) -> (r:
    ValidationResult)
    ensures
        r == verdict_of(hits@, captures_view(*captures)),
{
    if hits.len() == 0 {
        return ValidationResult::Rejected;
    }
    let last = hits[hits.len() - 1];
    if last == 0 {
        match captures {
            Some(groups) => match wait_from_groups(groups) {
                Some(w) => ValidationResult::Throttled(w),
                None => ValidationResult::Rejected,
            },
            None => ValidationResult::Rejected,
        }
    } else if last == 1 {
        ValidationResult::Accepted
    } else if last == 2 {
        ValidationResult::RejectedTooHigh
    } else if last == 3 {
        ValidationResult::RejectedTooLow
    } else {
        ValidationResult::Rejected
    }
}

/// Reads the verdict out of the body of a submission response. The last of
/// the four phrases found decides; a throttle phrase yields the wait that the
/// text states, or `Rejected` when none can be read; no phrase at all yields
/// `Rejected`.
pub fn parse_validation_response(text: &str) -> (r: ValidationResult)
    ensures
        r == classify(text@),
{
    let phrases: Vec<String> = vec![
        String::from_str("You gave an answer too recently"),
        String::from_str("That's the right answer"),
        String::from_str("your answer is too high"),
        String::from_str("your answer is too low"),
    ];
    assert(phrases_view(phrases@) =~= verdict_phrases());
    match find_phrases(&phrases, text) {
        Some(hits) => {
            let captures = if hits.len() > 0 && hits[hits.len() - 1] == 0 {
                match regex_captures_all("You have (?:(\\d+)m )?(\\d+)s left to wait", text) {
                    Some(mut ms) => if ms.len() > 0 {
                        let first = ms.remove(0);
                        Some(first)
                    } else {
                        None
                    },
                    None => None,
                }
            } else {
                None
            };
            verdict_from(&hits, &captures)
        },
        None => ValidationResult::Rejected,
    }
}

/// The session credential of a client, written only by the client's owner
/// and never from what a server sends. The platform reads it from the
/// `Cookie` header as `session=<secret>`.
pub struct AocSessionCookieStore {
    cookie: Option<String>,
}

impl View for AocSessionCookieStore {
    type V = Option<Seq<char>>;

    closed spec fn view(&self) -> Option<Seq<char>> {
        group_view(self.cookie)
    }
}

#[verifier::external_type_specification]
#[verifier::external_body]
pub struct ExHeaderValue(http::HeaderValue);

/// The characters that a header value may hold: a tab, or anything from a
/// space upwards but DEL.
pub open spec fn header_char_ok(c: char) -> bool {
    c == '\t' || (' ' <= c && c != '\x7f')
}

pub open spec fn header_text_ok(s: Seq<char>) -> bool {
    forall|i: int| 0 <= i < s.len() ==> header_char_ok(#[trigger] s[i])
}

/// Relies on `http::HeaderValue::from_str`: it accepts the text exactly when
/// each of its bytes is a tab, or at least 32 and not 127. Characters beyond
/// ASCII encode as bytes of 128 and above.
#[verifier::external_body]
fn header_value_of(s: &str) -> (r: Option<http::HeaderValue>)
    ensures
        r is Some <==> header_text_ok(s@),
{
    http::HeaderValue::from_str(s).ok()
}

/// The text of the session header for a secret.
pub open spec fn session_header(secret: Seq<char>) -> Seq<char> {
    "session="@ + secret
}

impl AocSessionCookieStore {
    /// A store that holds no secret yet.
    pub fn new() -> (r: AocSessionCookieStore)
        ensures
            r@ is None,
    {
        AocSessionCookieStore { cookie: None }
    }

    /// Replaces the secret.
    pub fn set_cookie(&mut self, cookie: &str)
        ensures
            final(self)@ == Some(cookie@),
    {
        self.cookie = Some(String::from_str(cookie));
    }

    /// The text of the session header, or `None` while no secret is held.
    pub fn header_text(&self) -> (r: Option<String>)
        ensures
            r is Some <==> self@ is Some,
            r is Some ==> r->0@ == session_header(self@->0),
    {
        match &self.cookie {
            Some(c) => {
                let mut h = String::from_str("session=");
                h.append(c.as_str());
                Some(h)
            },
            None => None,
        }
    }

    /// The session header as an HTTP header value; `None` while no secret is
    /// held, or when the secret holds characters a header cannot carry.
    pub fn cookies(&self) -> (r: Option<http::HeaderValue>)
        ensures
            r is Some <==> (self@ is Some && header_text_ok(session_header(self@->0))),
    {
        match self.header_text() {
            Some(h) => header_value_of(h.as_str()),
            None => None,
        }
    }
}

/// The address of a day's puzzle input under `base`.
pub fn puzzle_input_url(base: &str, day: i8) -> (r: String)
    ensures
        r@ == base@ + "2025/day/"@ + decimal_of(day as int) + "/input"@,
{
    let mut r = String::from_str(base);
    r.append("2025/day/");
    let d = decimal_i64(day as i64);
    r.append(d.as_str());
    r.append("/input");
    r
}

/// The address to which a day's answers are posted under `base`.
pub fn answer_url(base: &str, day: i8) -> (r: String)
    ensures
        r@ == base@ + "2025/day/"@ + decimal_of(day as int) + "/answer"@,
{
    let mut r = String::from_str(base);
    r.append("2025/day/");
    let d = decimal_i64(day as i64);
    r.append(d.as_str());
    r.append("/answer");
    r
}

/// The form fields of an answer submission: the level, then the answer.
pub fn answer_form(level: i8, answer: &str) -> (r: Vec<(String, String)>)
    ensures
        r@.len() == 2,
        r@[0].0@ == "level"@,
        r@[0].1@ == decimal_of(level as int),
        r@[1].0@ == "answer"@,
        r@[1].1@ == answer@,
{
    let level_text = decimal_i64(level as i64);
    vec![
        (String::from_str("level"), level_text),
        (String::from_str("answer"), String::from_str(answer)),
    ]
}

} // verus!
