//! The submission log and the decisions of the submission loop.
//!
//! The log remembers, per puzzle part, what earlier submissions taught: the
//! accepted answer, the rejected ones, and bounds on a numeric answer. The
//! caller loads it from storage before each operation and stores it back
//! after each change; with no locking, two processes that do so at once can
//! lose one another's update.
use vstd::prelude::*;

use crate::aocclient::ValidationResult;
use crate::text::{
    all_digits, chars_of, decimal_i64, decimal_of, integer_value, lemma_digits_value_nonneg,
    parse_digits,
};

verus! {

broadcast use vstd::string::group_string_axioms;

/// What the log knows of one puzzle part.
pub struct EntryModel {
    pub rejected: Seq<Seq<char>>,
    pub accepted: Option<Seq<char>>,
    pub upper: Option<i64>,
    pub lower: Option<i64>,
}

/// The knowledge gathered on one puzzle part.
pub struct PuzzleLogEntry {
    pub rejected_answers: Vec<String>,
    pub accepted_answer: Option<String>,
    pub upper_bound: Option<i64>,
    pub lower_bound: Option<i64>,
}

pub open spec fn opt_text(o: Option<String>) -> Option<Seq<char>> {
    match o {
        Some(s) => Some(s@),
        None => None,
    }
}

impl View for PuzzleLogEntry {
    type V = EntryModel;

    open spec fn view(&self) -> EntryModel {
        EntryModel {
            rejected: self.rejected_answers@.map_values(|s: String| s@),
            accepted: opt_text(self.accepted_answer),
            upper: self.upper_bound,
            lower: self.lower_bound,
        }
    }
}

pub open spec fn empty_entry() -> EntryModel {
    EntryModel { rejected: Seq::empty(), accepted: None, upper: None, lower: None }
}

impl PuzzleLogEntry {
    /// An entry that knows nothing yet.
    pub fn new() -> (r: PuzzleLogEntry)
        ensures
            r@ == empty_entry(),
    {
        let r = PuzzleLogEntry {
            rejected_answers: Vec::new(),
            accepted_answer: None,
            upper_bound: None,
            lower_bound: None,
        };
        assert(r@.rejected =~= Seq::<Seq<char>>::empty());
        r
    }
}

/// Pairs whose first components are pairwise distinct.
pub open spec fn keys_unique<V>(s: Seq<(Seq<char>, V)>) -> bool {
    forall|i: int, j: int|
        0 <= i < s.len() && 0 <= j < s.len() && i != j ==> s[i].0 != s[j].0
}

/// The map that a sequence of key/value pairs with distinct keys stands for.
pub open spec fn map_of<V>(s: Seq<(Seq<char>, V)>) -> Map<Seq<char>, V> {
    Map::new(
        |k: Seq<char>| exists|i: int| 0 <= i < s.len() && s[i].0 == k,
        |k: Seq<char>| s[choose|i: int| 0 <= i < s.len() && s[i].0 == k].1,
    )
}

proof fn lemma_map_of_at<V>(s: Seq<(Seq<char>, V)>, i: int)
    requires
        keys_unique(s),
        0 <= i < s.len(),
    ensures
        map_of(s).contains_key(s[i].0),
        map_of(s)[s[i].0] == s[i].1,
{
    let k = s[i].0;
    assert(exists|j: int| 0 <= j < s.len() && s[j].0 == k);
    let j = choose|j: int| 0 <= j < s.len() && s[j].0 == k;
    assert(i == j);
}

proof fn lemma_map_of_push<V>(s: Seq<(Seq<char>, V)>, x: (Seq<char>, V))
    requires
        keys_unique(s),
        !map_of(s).contains_key(x.0),
    ensures
        keys_unique(s.push(x)),
        map_of(s.push(x)) == map_of(s).insert(x.0, x.1),
{
    let t = s.push(x);
    assert forall|i: int| 0 <= i < s.len() implies #[trigger] s[i].0 != x.0 by {
        lemma_map_of_at(s, i);
    }
    assert(keys_unique(t)) by {
        assert forall|i: int, j: int|
            0 <= i < t.len() && 0 <= j < t.len() && i != j implies t[i].0 != t[j].0 by {
            if i < s.len() && j < s.len() {
                assert(t[i] == s[i] && t[j] == s[j]);
            } else if i < s.len() {
                assert(t[i] == s[i]);
            } else if j < s.len() {
                assert(t[j] == s[j]);
            }
        }
    }
    let m = map_of(s).insert(x.0, x.1);
    assert forall|k: Seq<char>| #[trigger] map_of(t).contains_key(k) == m.contains_key(k) by {
        if map_of(s).contains_key(k) {
            let i = choose|i: int| 0 <= i < s.len() && s[i].0 == k;
            assert(t[i] == s[i]);
        }
        if map_of(t).contains_key(k) && k != x.0 {
            let i = choose|i: int| 0 <= i < t.len() && t[i].0 == k;
            assert(i < s.len());
            assert(t[i] == s[i]);
        }
        if k == x.0 {
            assert(t[s.len() as int] == x);
        }
    }
    assert forall|k: Seq<char>| #[trigger] map_of(t).contains_key(k) implies map_of(t)[k] == m[k] by {
        let i = choose|i: int| 0 <= i < t.len() && t[i].0 == k;
        lemma_map_of_at(t, i);
        if i < s.len() {
            assert(t[i] == s[i]);
            lemma_map_of_at(s, i);
        } else {
            assert(t[i] == x);
        }
    }
    assert(map_of(t) =~= m);
}

proof fn lemma_map_of_remove<V>(s: Seq<(Seq<char>, V)>, i: int)
    requires
        keys_unique(s),
        0 <= i < s.len(),
    ensures
        keys_unique(s.remove(i)),
        map_of(s.remove(i)) == map_of(s).remove(s[i].0),
{
    let t = s.remove(i);
    assert forall|a: int| 0 <= a < t.len() implies #[trigger] t[a] == s[if a < i {
        a
    } else {
        a + 1
    }] by {}
    assert(keys_unique(t)) by {
        assert forall|a: int, b: int|
            0 <= a < t.len() && 0 <= b < t.len() && a != b implies t[a].0 != t[b].0 by {
            let a2 = if a < i {
                a
            } else {
                a + 1
            };
            let b2 = if b < i {
                b
            } else {
                b + 1
            };
            assert(t[a] == s[a2] && t[b] == s[b2]);
        }
    }
    let m = map_of(s).remove(s[i].0);
    assert forall|k: Seq<char>| #[trigger] map_of(t).contains_key(k) == m.contains_key(k) by {
        if map_of(t).contains_key(k) {
            let a = choose|a: int| 0 <= a < t.len() && t[a].0 == k;
            let a2 = if a < i {
                a
            } else {
                a + 1
            };
            assert(t[a] == s[a2]);
        }
        if m.contains_key(k) {
            let b = choose|b: int| 0 <= b < s.len() && s[b].0 == k;
            assert(b != i);
            let a = if b < i {
                b
            } else {
                b - 1
            };
            assert(t[a] == s[b]);
        }
    }
    assert forall|k: Seq<char>| #[trigger] map_of(t).contains_key(k) implies map_of(t)[k] == m[k] by {
        let a = choose|a: int| 0 <= a < t.len() && t[a].0 == k;
        lemma_map_of_at(t, a);
        let a2 = if a < i {
            a
        } else {
            a + 1
        };
        assert(t[a] == s[a2]);
        lemma_map_of_at(s, a2);
    }
    assert(map_of(t) =~= m);
}

/// The submission log: for each puzzle-part key, what is known of it.
pub struct Log {
    answers: Vec<(String, PuzzleLogEntry)>,
}

pub open spec fn pair_view(p: (String, PuzzleLogEntry)) -> (Seq<char>, EntryModel) {
    (p.0@, p.1@)
}

impl Log {
    pub closed spec fn pairs(&self) -> Seq<(Seq<char>, EntryModel)> {
        self.answers@.map_values(|p: (String, PuzzleLogEntry)| pair_view(p))
    }

    /// Each key stands once in the log.
    pub closed spec fn wf(&self) -> bool {
        keys_unique(self.pairs())
    }

    pub closed spec fn view(&self) -> Map<Seq<char>, EntryModel> {
        map_of(self.pairs())
    }

    /// An empty log.
    pub fn new() -> (r: Log)
        ensures
            r.wf(),
            r.view() == Map::<Seq<char>, EntryModel>::empty(),
    {
        let r = Log { answers: Vec::new() };
        assert(r.view() =~= Map::<Seq<char>, EntryModel>::empty());
        r
    }

    fn find(&self, key: &String) -> (r: Option<usize>)
        requires
            self.wf(),
        ensures
            match r {
                Some(i) => i < self.answers.len() && self.pairs()[i as int].0 == key@,
                None => !self.view().contains_key(key@),
            },
    {
        let mut i: usize = 0;
        while i < self.answers.len()
            invariant
                i <= self.answers.len(),
                forall|j: int| 0 <= j < i ==> self.pairs()[j].0 != key@,
            decreases self.answers.len() - i,
        {
            if self.answers[i].0 == *key {
                return Some(i);
            }
            i += 1;
        }
        None
    }

    /// The entry of `key`, if the log has one.
    pub fn get(&self, key: &String) -> (r: Option<&PuzzleLogEntry>)
        requires
            self.wf(),
        ensures
            r is Some <==> self.view().contains_key(key@),
            r is Some ==> r->0@ == self.view()[key@],
    {
        match self.find(key) {
            Some(i) => {
                proof { lemma_map_of_at(self.pairs(), i as int); }
                Some(&self.answers[i].1)
            },
            None => None,
        }
    }

    /// Takes the entry of `key` out of the log.
    pub fn remove(&mut self, key: &String) -> (r: Option<PuzzleLogEntry>)
        requires
            old(self).wf(),
        ensures
            final(self).wf(),
            final(self).view() == old(self).view().remove(key@),
            r is Some <==> old(self).view().contains_key(key@),
            r is Some ==> r->0@ == old(self).view()[key@],
    {
        match self.find(key) {
            Some(i) => {
                proof {
                    lemma_map_of_at(self.pairs(), i as int);
                    lemma_map_of_remove(self.pairs(), i as int);
                }
                let ghost before = self.pairs();
                let (_, e) = self.answers.remove(i);
                assert(self.pairs() =~= before.remove(i as int));
                Some(e)
            },
            None => {
                assert(self.view() =~= self.view().remove(key@));
                None
            },
        }
    }

    /// Sets the entry of `key`, replacing any it had.
    pub fn insert(&mut self, key: String, entry: PuzzleLogEntry)
        requires
            old(self).wf(),
        ensures
            final(self).wf(),
            final(self).view() == old(self).view().insert(key@, entry@),
    {
        let _ = self.remove(&key);
        let ghost before = self.pairs();
        let ghost k = key@;
        let ghost e = entry@;
        self.answers.push((key, entry));
        proof {
            assert(self.pairs() =~= before.push((k, e)));
            lemma_map_of_push(before, (k, e));
            assert(map_of(before).insert(k, e) =~= old(self).view().insert(k, e));
        }
    }

    /// The key/entry pairs of the log, each key once.
    pub fn into_entries(self) -> (r: Vec<(String, PuzzleLogEntry)>)
        requires
            self.wf(),
        ensures
            keys_unique(r@.map_values(|p: (String, PuzzleLogEntry)| pair_view(p))),
            map_of(r@.map_values(|p: (String, PuzzleLogEntry)| pair_view(p))) == self.view(),
    {
        self.answers
    }

    /// The log that holds the given pairs; of two pairs with one key, the
    /// later one stands.
    pub fn from_entries(entries: Vec<(String, PuzzleLogEntry)>) -> (r: Log)
        ensures
            r.wf(),
            r.view() == entries_map(entries@.map_values(|p: (String, PuzzleLogEntry)| pair_view(p))),
            keys_unique(entries@.map_values(|p: (String, PuzzleLogEntry)| pair_view(p))) ==> r.view()
                == map_of(entries@.map_values(|p: (String, PuzzleLogEntry)| pair_view(p))),
    {
        let ghost s = entries@.map_values(|p: (String, PuzzleLogEntry)| pair_view(p));
        let mut log = Log::new();
        let len = entries.len();
        for p in it: entries
            invariant
                log.wf(),
                len == entries@.len(),
                s == entries@.map_values(|p: (String, PuzzleLogEntry)| pair_view(p)),
                it.seq() == entries@,
                log.view() == entries_map(s.subrange(0, it.index() as int)),
        {
            let ghost idx = it.index();
            let (k, e) = p;
            proof {
                assert(s.subrange(0, idx + 1).drop_last() =~= s.subrange(0, idx as int));
                assert(s.subrange(0, idx + 1).last() == (k@, e@));
            }
            log.insert(k, e);
        }
        assert(s.subrange(0, s.len() as int) =~= s);
        proof {
            if keys_unique(s) {
                lemma_entries_round_trip(s);
            }
        }
        log
    }
}

/// The map that inserting the pairs of `s` in order gives.
pub open spec fn entries_map(s: Seq<(Seq<char>, EntryModel)>) -> Map<Seq<char>, EntryModel>
    decreases s.len(),
{
    if s.len() == 0 {
        Map::empty()
    } else {
        entries_map(s.drop_last()).insert(s.last().0, s.last().1)
    }
}

/// The integer that `s` writes, when it fits in `i64`.
pub open spec fn i64_value(s: Seq<char>) -> Option<int> {
    match integer_value(s) {
        Some(v) => if i64::MIN <= v <= i64::MAX {
            Some(v)
        } else {
            None
        },
        None => None,
    }
}

/// Reads an integer: an optional sign, then decimal digits, within `i64`.
pub fn parse_i64(s: &str) -> (r: Option<i64>)
    ensures
        r == (match i64_value(s@) {
            Some(v) => Some(v as i64),
            None => None,
        }),
{
    let cs = chars_of(s);
    let n = cs.len();
    proof {
        if n > 0 {
            assert(s@[0] == cs@[0]);
            if all_digits(s@.drop_first()) {
                lemma_digits_value_nonneg(s@.drop_first());
            }
        }
        if all_digits(s@) {
            lemma_digits_value_nonneg(s@);
        }
    }
    if n > 0 && (cs[0] == '-' || cs[0] == '+') {
        assert(cs@.subrange(1, n as int) =~= s@.drop_first());
        match parse_digits(&cs, 1, n) {
            Some(m) => {
                if cs[0] == '-' {
                    if m <= 9223372036854775808u64 {
                        Some((0i128 - m as i128) as i64)
                    } else {
                        None
                    }
                } else if m <= 9223372036854775807u64 {
                    Some(m as i64)
                } else {
                    None
                }
            },
            None => None,
        }
    } else {
        assert(cs@.subrange(0, n as int) =~= s@);
        match parse_digits(&cs, 0, n) {
            Some(m) => if m <= 9223372036854775807u64 {
                Some(m as i64)
            } else {
                None
            },
            None => None,
        }
    }
}

/// The log key of a puzzle part: `day{D}part{L}`.
pub open spec fn key_of(day: i8, level: i8) -> Seq<char> {
    "day"@ + decimal_of(day as int) + "part"@ + decimal_of(level as int)
}

/// The log key of a puzzle part.
pub fn puzzle_key(day: i8, level: i8) -> (r: String)
    ensures
        r@ == key_of(day, level),
{
    let mut r = String::from_str("day");
    let d = decimal_i64(day as i64);
    r.append(d.as_str());
    r.append("part");
    let l = decimal_i64(level as i64);
    r.append(l.as_str());
    r
}

/// The verdict that an entry gives on `answer` without asking the platform:
/// the accepted answer decides when there is one; else an integer answer at
/// or above the upper bound is too high, at or below the lower bound too low;
/// else an answer rejected before is rejected; else nothing is known.
pub open spec fn check_entry(e: EntryModel, answer: Seq<char>) -> Option<ValidationResult> {
    match e.accepted {
        Some(a) => if answer == a {
            Some(ValidationResult::Accepted)
        } else {
            Some(ValidationResult::Rejected)
        },
        None => {
            let n = i64_value(answer);
            if n is Some && e.upper is Some && n->0 >= e.upper->0 {
                Some(ValidationResult::RejectedTooHigh)
            } else if n is Some && e.lower is Some && n->0 <= e.lower->0 {
                Some(ValidationResult::RejectedTooLow)
            } else if e.rejected.contains(answer) {
                Some(ValidationResult::Rejected)
            } else {
                None
            }
        },
    }
}

/// The verdict that the log gives on `answer` for `key`, if any.
pub open spec fn check_log(log: Map<Seq<char>, EntryModel>, key: Seq<char>, answer: Seq<char>) -> Option<ValidationResult> {
    if log.contains_key(key) {
        check_entry(log[key], answer)
    } else {
        None
    }
}

/// What an entry knows after `answer` got `verdict`. A throttled verdict
/// teaches nothing.
pub open spec fn record_entry(e: EntryModel, answer: Seq<char>, verdict: ValidationResult) -> EntryModel {
    match verdict {
        ValidationResult::Accepted => EntryModel { accepted: Some(answer), ..e },
        ValidationResult::Rejected => if e.rejected.contains(answer) {
            e
        } else {
            EntryModel { rejected: e.rejected.push(answer), ..e }
        },
        ValidationResult::RejectedTooLow => match i64_value(answer) {
            Some(n) => EntryModel {
                lower: Some(
                    match e.lower {
                        Some(l) => if l >= n {
                            l
                        } else {
                            n as i64
                        },
                        None => n as i64,
                    },
                ),
                ..e
            },
            None => e,
        },
        ValidationResult::RejectedTooHigh => match i64_value(answer) {
            Some(n) => EntryModel {
                upper: Some(
                    match e.upper {
                        Some(u) => if u <= n {
                            u
                        } else {
                            n as i64
                        },
                        None => n as i64,
                    },
                ),
                ..e
            },
            None => e,
        },
        ValidationResult::Throttled(_) => e,
    }
}

/// The entry of `key`, or an empty one.
pub open spec fn entry_or_empty(log: Map<Seq<char>, EntryModel>, key: Seq<char>) -> EntryModel {
    if log.contains_key(key) {
        log[key]
    } else {
        empty_entry()
    }
}

/// The log after `answer` got `verdict` for `key`.
pub open spec fn record_log(
    log: Map<Seq<char>, EntryModel>,
    key: Seq<char>,
    answer: Seq<char>,
    verdict: ValidationResult,
) -> Map<Seq<char>, EntryModel> {
    log.insert(key, record_entry(entry_or_empty(log, key), answer, verdict))
}

fn contains_text(v: &Vec<String>, s: &String) -> (r: bool)
    ensures
        r == v@.map_values(|x: String| x@).contains(s@),
{
    let ghost m = v@.map_values(|x: String| x@);
    let mut i: usize = 0;
    while i < v.len()
        invariant
            i <= v.len(),
            m == v@.map_values(|x: String| x@),
            forall|j: int| 0 <= j < i ==> m[j] != s@,
        decreases v.len() - i,
    {
        if v[i] == *s {
            assert(m[i as int] == s@);
            return true;
        }
        i += 1;
    }
    false
}

/// The verdict that the log gives on `answer` for a puzzle part without
/// asking the platform, or `None` when the platform must be asked.
pub fn check_submission_log(log: &Log, day: i8, level: i8, answer: &str) -> (r: Option<
    ValidationResult,
>)
    requires
        log.wf(),
    ensures
        r == check_log(log.view(), key_of(day, level), answer@),
{
    let key = puzzle_key(day, level);
    let entry = match log.get(&key) {
        Some(e) => e,
        None => return None,
    };
    let a = String::from_str(answer);
    if let Some(acc) = &entry.accepted_answer {
        return Some(
            if a == *acc {
                ValidationResult::Accepted
            } else {
                ValidationResult::Rejected
            },
        );
    }
    let n = parse_i64(answer);
    if let Some(v) = n {
        if let Some(u) = entry.upper_bound {
            if v >= u {
                return Some(ValidationResult::RejectedTooHigh);
            }
        }
        if let Some(l) = entry.lower_bound {
            if v <= l {
                return Some(ValidationResult::RejectedTooLow);
            }
        }
    }
    if contains_text(&entry.rejected_answers, &a) {
        return Some(ValidationResult::Rejected);
    }
    None
}

/// Records in the log that `answer` got `result` for a puzzle part. A
/// throttled result must be waited out, never recorded.
pub fn record_submission_log(
    log: &mut Log,
    day: i8,
    level: i8,
    answer: &str,
    result: &ValidationResult,
)
    requires
        old(log).wf(),
        !(*result is Throttled),
    ensures
        final(log).wf(),
        final(log).view() == record_log(old(log).view(), key_of(day, level), answer@, *result),
{
    let key = puzzle_key(day, level);
    let mut entry = match log.remove(&key) {
        Some(e) => e,
        None => PuzzleLogEntry::new(),
    };
    let ghost e0 = entry@;
    match *result {
        ValidationResult::Accepted => {
            entry.accepted_answer = Some(String::from_str(answer));
        },
        ValidationResult::Rejected => {
            let a = String::from_str(answer);
            if !contains_text(&entry.rejected_answers, &a) {
                entry.rejected_answers.push(a);
                assert(entry@.rejected =~= e0.rejected.push(answer@));
            }
        },
        ValidationResult::RejectedTooLow => {
            if let Some(n) = parse_i64(answer) {
                let mut lower = n;
                if let Some(old_lower) = entry.lower_bound {
                    if old_lower >= lower {
                        lower = old_lower;
                    }
                }
                entry.lower_bound = Some(lower);
            }
        },
        ValidationResult::RejectedTooHigh => {
            if let Some(n) = parse_i64(answer) {
                let mut upper = n;
                if let Some(old_upper) = entry.upper_bound {
                    if old_upper <= upper {
                        upper = old_upper;
                    }
                }
                entry.upper_bound = Some(upper);
            }
        },
        ValidationResult::Throttled(_) => {},
    }
    assert(entry@ == record_entry(e0, answer@, *result)) by {
        assert(entry@.rejected =~= record_entry(e0, answer@, *result).rejected);
    }
    log.insert(key, entry);
}

/// Both parts of `day` have an accepted answer in the log.
pub open spec fn day_solved(log: Map<Seq<char>, EntryModel>, day: i8) -> bool {
    &&& log.contains_key(key_of(day, 1))
    &&& log[key_of(day, 1)].accepted is Some
    &&& log.contains_key(key_of(day, 2))
    &&& log[key_of(day, 2)].accepted is Some
}

fn has_accepted(log: &Log, day: i8, level: i8) -> (r: bool)
    requires
        log.wf(),
    ensures
        r == (log.view().contains_key(key_of(day, level)) && log.view()[key_of(
            day,
            level,
        )].accepted is Some),
{
    let key = puzzle_key(day, level);
    match log.get(&key) {
        Some(e) => e.accepted_answer.is_some(),
        None => false,
    }
}

/// The first day, counting from 1, whose two parts are not both solved;
/// the search stops at day 24.
pub fn next_unsolved_day(log: &Log) -> (r: i8)
    requires
        log.wf(),
    ensures
        1 <= r <= 24,
        forall|d: i8| 1 <= d < r ==> day_solved(log.view(), d),
        r < 24 ==> !day_solved(log.view(), r),
{
    let mut day: i8 = 1;
    while day < 24
        invariant
            1 <= day <= 24,
            log.wf(),
            forall|d: i8| 1 <= d < day ==> day_solved(log.view(), d),
        decreases 24 - day,
    {
        if !(has_accepted(log, day, 1) && has_accepted(log, day, 2)) {
            return day;
        }
        day += 1;
    }
    day
}

/// What the submission loop does next.
#[derive(Debug, Clone, Copy, PartialEq, Eq, Structural)]
pub enum SubmitAction {
    /// Hand this verdict back; the log stays as it is.
    Return(ValidationResult),
    /// Call the submission function.
    Submit,
    /// Wait this many seconds, then call the submission function again.
    WaitThenSubmit(u64),
    /// Record this verdict in the log, then hand it back.
    RecordAndReturn(ValidationResult),
}

/// An answer that is never worth sending: empty, or `0`.
pub open spec fn is_trivial(answer: Seq<char>) -> bool {
    answer.len() == 0 || answer == seq!['0']
}

/// The first step of a submission: a verdict the log already knows, the
/// rejection of a trivial answer, or a call of the submission function.
pub open spec fn first_action(log: Map<Seq<char>, EntryModel>, key: Seq<char>, answer: Seq<char>) -> SubmitAction {
    match check_log(log, key, answer) {
        Some(v) => SubmitAction::Return(v),
        None => if is_trivial(answer) {
            SubmitAction::Return(ValidationResult::Rejected)
        } else {
            SubmitAction::Submit
        },
    }
}

/// The step after the submission function returned `v`: wait and submit
/// again when throttled, else record the verdict and return it.
pub open spec fn action_after(v: ValidationResult) -> SubmitAction {
    match v {
        ValidationResult::Throttled(d) => SubmitAction::WaitThenSubmit(d),
        _ => SubmitAction::RecordAndReturn(v),
    }
}

/// The first step of submitting `answer` for a puzzle part.
pub fn begin_submission(log: &Log, day: i8, level: i8, answer: &str) -> (r: SubmitAction)
    requires
        log.wf(),
    ensures
        r == first_action(log.view(), key_of(day, level), answer@),
{
    if let Some(v) = check_submission_log(log, day, level, answer) {
        return SubmitAction::Return(v);
    }
    let cs = chars_of(answer);
    if cs.len() == 0 || (cs.len() == 1 && cs[0] == '0') {
        assert(cs.len() == 1 ==> (cs[0] == '0' <==> answer@ =~= seq!['0']));
        SubmitAction::Return(ValidationResult::Rejected)
    } else {
        assert(answer@ != seq!['0']) by {
            if answer@ == seq!['0'] {
                assert(cs@[0] == '0');
            }
        }
        SubmitAction::Submit
    }
}

/// The step after the submission function returned `result`.
pub fn after_submission(result: ValidationResult) -> (r: SubmitAction)
    ensures
        r == action_after(result),
{
    match result {
        ValidationResult::Throttled(d) => SubmitAction::WaitThenSubmit(d),
        _ => SubmitAction::RecordAndReturn(result),
    }
}

/// Once a part has an accepted answer, the log settles every submission of
/// it: that answer is accepted and any other rejected, with no call of the
/// submission function.
pub proof fn lemma_accepted_answer_decides(
    log: Map<Seq<char>, EntryModel>,
    key: Seq<char>,
    x: Seq<char>,
    y: Seq<char>,
)
    requires
        log.contains_key(key),
        log[key].accepted == Some(x),
    ensures
        check_log(log, key, x) == Some(ValidationResult::Accepted),
        first_action(log, key, x) == SubmitAction::Return(ValidationResult::Accepted),
        y != x ==> check_log(log, key, y) == Some(ValidationResult::Rejected),
        y != x ==> first_action(log, key, y) == SubmitAction::Return(ValidationResult::Rejected),
{
}

/// After recording that `x` was accepted for a key, the log accepts `x` and
/// rejects any other answer for that key.
pub proof fn lemma_record_accepted_then_check(
    log: Map<Seq<char>, EntryModel>,
    key: Seq<char>,
    x: Seq<char>,
    y: Seq<char>,
)
    ensures
        check_log(record_log(log, key, x, ValidationResult::Accepted), key, x) == Some(
            ValidationResult::Accepted,
        ),
        y != x ==> check_log(record_log(log, key, x, ValidationResult::Accepted), key, y) == Some(
            ValidationResult::Rejected,
        ),
{
    lemma_accepted_answer_decides(record_log(log, key, x, ValidationResult::Accepted), key, x, y);
}

/// The log after recording each of `answers`, in order, with verdict `v`.
pub open spec fn record_all(
    log: Map<Seq<char>, EntryModel>,
    key: Seq<char>,
    answers: Seq<Seq<char>>,
    v: ValidationResult,
) -> Map<Seq<char>, EntryModel>
    decreases answers.len(),
{
    if answers.len() == 0 {
        log
    } else {
        record_log(record_all(log, key, answers.drop_last(), v), key, answers.last(), v)
    }
}

pub open spec fn seq_min(s: Seq<int>) -> int
    decreases s.len(),
{
    if s.len() <= 1 {
        s[0]
    } else {
        let m = seq_min(s.drop_last());
        if m <= s.last() {
            m
        } else {
            s.last()
        }
    }
}

pub open spec fn seq_max(s: Seq<int>) -> int
    decreases s.len(),
{
    if s.len() <= 1 {
        s[0]
    } else {
        let m = seq_max(s.drop_last());
        if m >= s.last() {
            m
        } else {
            s.last()
        }
    }
}

/// Recording integer answers `answers` (of values `vals`) as too high, on a
/// part with no upper bound yet, leaves the least of them as the upper bound.
pub proof fn lemma_upper_bound_is_min(
    log: Map<Seq<char>, EntryModel>,
    key: Seq<char>,
    answers: Seq<Seq<char>>,
    vals: Seq<int>,
)
    requires
        answers.len() == vals.len(),
        answers.len() > 0,
        forall|i: int| 0 <= i < answers.len() ==> i64_value(#[trigger] answers[i]) == Some(vals[i]),
        entry_or_empty(log, key).upper is None,
    ensures
        record_all(log, key, answers, ValidationResult::RejectedTooHigh).contains_key(key),
        record_all(log, key, answers, ValidationResult::RejectedTooHigh)[key].upper == Some(
            seq_min(vals) as i64,
        ),
        i64::MIN <= seq_min(vals) <= i64::MAX,
    decreases answers.len(),
{
    let v = ValidationResult::RejectedTooHigh;
    let n = answers.len();
    assert(i64_value(answers[n - 1]) == Some(vals[n - 1]));
    if n > 1 {
        assert forall|i: int| 0 <= i < n - 1 implies i64_value(
            #[trigger] answers.drop_last()[i],
        ) == Some(vals.drop_last()[i]) by {
            assert(answers.drop_last()[i] == answers[i]);
        }
        lemma_upper_bound_is_min(log, key, answers.drop_last(), vals.drop_last());
    } else {
        assert(record_all(log, key, answers.drop_last(), v) == log);
    }
}

/// Recording integer answers `answers` (of values `vals`) as too low, on a
/// part with no lower bound yet, leaves the greatest of them as the lower
/// bound.
pub proof fn lemma_lower_bound_is_max(
    log: Map<Seq<char>, EntryModel>,
    key: Seq<char>,
    answers: Seq<Seq<char>>,
    vals: Seq<int>,
)
    requires
        answers.len() == vals.len(),
        answers.len() > 0,
        forall|i: int| 0 <= i < answers.len() ==> i64_value(#[trigger] answers[i]) == Some(vals[i]),
        entry_or_empty(log, key).lower is None,
    ensures
        record_all(log, key, answers, ValidationResult::RejectedTooLow).contains_key(key),
        record_all(log, key, answers, ValidationResult::RejectedTooLow)[key].lower == Some(
            seq_max(vals) as i64,
        ),
        i64::MIN <= seq_max(vals) <= i64::MAX,
    decreases answers.len(),
{
    let v = ValidationResult::RejectedTooLow;
    let n = answers.len();
    assert(i64_value(answers[n - 1]) == Some(vals[n - 1]));
    if n > 1 {
        assert forall|i: int| 0 <= i < n - 1 implies i64_value(
            #[trigger] answers.drop_last()[i],
        ) == Some(vals.drop_last()[i]) by {
            assert(answers.drop_last()[i] == answers[i]);
        }
        lemma_lower_bound_is_max(log, key, answers.drop_last(), vals.drop_last());
    } else {
        assert(record_all(log, key, answers.drop_last(), v) == log);
    }
}

/// An empty answer, or `0`, never reaches the submission function.
pub proof fn lemma_trivial_answer_not_submitted(
    log: Map<Seq<char>, EntryModel>,
    key: Seq<char>,
    answer: Seq<char>,
)
    requires
        is_trivial(answer),
    ensures
        first_action(log, key, answer) is Return,
{
}

/// A throttled verdict leads to a wait of its full duration and a new
/// submission; any other verdict is recorded and returned, so a throttled
/// verdict is never recorded.
pub proof fn lemma_throttle_waits_then_resubmits(v: ValidationResult)
    ensures
        v is Throttled ==> action_after(v) == SubmitAction::WaitThenSubmit(v->Throttled_0),
        !(v is Throttled) ==> action_after(v) == SubmitAction::RecordAndReturn(v),
        action_after(v) is RecordAndReturn ==> !(action_after(v)->RecordAndReturn_0 is Throttled),
{
}

/// Building a log from the pairs of another, in order, gives back the same
/// mapping of keys to entries.
pub proof fn lemma_entries_round_trip(s: Seq<(Seq<char>, EntryModel)>)
    requires
        keys_unique(s),
    ensures
        entries_map(s) == map_of(s),
    decreases s.len(),
{
    if s.len() > 0 {
        let p = s.drop_last();
        assert(keys_unique(p));
        lemma_entries_round_trip(p);
        assert(!map_of(p).contains_key(s.last().0)) by {
            if map_of(p).contains_key(s.last().0) {
                let i = choose|i: int| 0 <= i < p.len() && p[i].0 == s.last().0;
                assert(s[i] == p[i]);
            }
        }
        lemma_map_of_push(p, s.last());
        assert(p.push(s.last()) =~= s);
    }
}

} // verus!
