use aoc25::aocclient::ValidationResult;
use aoc25::autosubmit::{
    after_submission, begin_submission, check_submission_log, next_unsolved_day, parse_i64,
    puzzle_key, record_submission_log, Log, PuzzleLogEntry, SubmitAction,
};

#[test]
fn puzzle_key_format() {
    assert_eq!(puzzle_key(3, 1), "day3part1");
    assert_eq!(puzzle_key(12, 2), "day12part2");
}

#[test]
fn parse_i64_accepts_signs_and_rejects_junk() {
    assert_eq!(parse_i64("42"), Some(42));
    assert_eq!(parse_i64("-42"), Some(-42));
    assert_eq!(parse_i64("+7"), Some(7));
    assert_eq!(parse_i64("-9223372036854775808"), Some(i64::MIN));
    assert_eq!(parse_i64("9223372036854775808"), None);
    assert_eq!(parse_i64(""), None);
    assert_eq!(parse_i64("-"), None);
    assert_eq!(parse_i64("12a"), None);
}

#[test]
fn empty_log_knows_nothing() {
    let log = Log::new();
    assert_eq!(check_submission_log(&log, 1, 1, "123"), None);
    assert_eq!(next_unsolved_day(&log), 1);
}

#[test]
fn accepted_answer_decides_locally() {
    let mut log = Log::new();
    record_submission_log(&mut log, 4, 2, "1234", &ValidationResult::Accepted);
    assert_eq!(check_submission_log(&log, 4, 2, "1234"), Some(ValidationResult::Accepted));
    assert_eq!(check_submission_log(&log, 4, 2, "1235"), Some(ValidationResult::Rejected));
    assert_eq!(check_submission_log(&log, 4, 1, "1234"), None);
    assert_eq!(
        begin_submission(&log, 4, 2, "99"),
        SubmitAction::Return(ValidationResult::Rejected)
    );
}

#[test]
fn upper_bound_is_least_too_high() {
    let mut log = Log::new();
    for v in ["500", "300", "400"] {
        record_submission_log(&mut log, 1, 1, v, &ValidationResult::RejectedTooHigh);
    }
    assert_eq!(log.get(&puzzle_key(1, 1)).unwrap().upper_bound, Some(300));
    assert_eq!(check_submission_log(&log, 1, 1, "300"), Some(ValidationResult::RejectedTooHigh));
    assert_eq!(check_submission_log(&log, 1, 1, "299"), None);
}

#[test]
fn lower_bound_is_greatest_too_low() {
    let mut log = Log::new();
    for v in ["-5", "20", "10"] {
        record_submission_log(&mut log, 1, 1, v, &ValidationResult::RejectedTooLow);
    }
    assert_eq!(log.get(&puzzle_key(1, 1)).unwrap().lower_bound, Some(20));
    assert_eq!(check_submission_log(&log, 1, 1, "20"), Some(ValidationResult::RejectedTooLow));
    assert_eq!(check_submission_log(&log, 1, 1, "21"), None);
}

#[test]
fn non_integer_bound_verdict_changes_nothing() {
    let mut log = Log::new();
    record_submission_log(&mut log, 2, 1, "abc", &ValidationResult::RejectedTooHigh);
    let e = log.get(&puzzle_key(2, 1)).unwrap();
    assert_eq!(e.upper_bound, None);
    assert!(e.rejected_answers.is_empty());
}

#[test]
fn rejected_answers_are_kept_once() {
    let mut log = Log::new();
    record_submission_log(&mut log, 5, 1, "abc", &ValidationResult::Rejected);
    record_submission_log(&mut log, 5, 1, "abc", &ValidationResult::Rejected);
    record_submission_log(&mut log, 5, 1, "xyz", &ValidationResult::Rejected);
    assert_eq!(log.get(&puzzle_key(5, 1)).unwrap().rejected_answers, vec!["abc", "xyz"]);
    assert_eq!(check_submission_log(&log, 5, 1, "abc"), Some(ValidationResult::Rejected));
    assert_eq!(check_submission_log(&log, 5, 1, "abd"), None);
}

#[test]
fn trivial_answers_are_never_submitted() {
    let log = Log::new();
    assert_eq!(
        begin_submission(&log, 1, 1, ""),
        SubmitAction::Return(ValidationResult::Rejected)
    );
    assert_eq!(
        begin_submission(&log, 1, 1, "0"),
        SubmitAction::Return(ValidationResult::Rejected)
    );
    assert_eq!(begin_submission(&log, 1, 1, "00"), SubmitAction::Submit);
}

#[test]
fn throttled_verdict_waits_then_resubmits() {
    assert_eq!(after_submission(ValidationResult::Throttled(57)), SubmitAction::WaitThenSubmit(57));
    assert_eq!(
        after_submission(ValidationResult::RejectedTooLow),
        SubmitAction::RecordAndReturn(ValidationResult::RejectedTooLow)
    );
}

#[test]
fn next_unsolved_day_stops_at_first_gap() {
    let mut log = Log::new();
    for day in [1, 2, 4] {
        record_submission_log(&mut log, day, 1, "1", &ValidationResult::Accepted);
        record_submission_log(&mut log, day, 2, "2", &ValidationResult::Accepted);
    }
    record_submission_log(&mut log, 3, 1, "1", &ValidationResult::Accepted);
    assert_eq!(next_unsolved_day(&log), 3);
}

#[test]
fn entries_round_trip() {
    let mut log = Log::new();
    record_submission_log(&mut log, 1, 1, "10", &ValidationResult::RejectedTooLow);
    record_submission_log(&mut log, 1, 2, "7", &ValidationResult::Accepted);
    let entries = log.into_entries();
    assert_eq!(entries.len(), 2);
    let back = Log::from_entries(entries);
    assert_eq!(back.get(&puzzle_key(1, 1)).unwrap().lower_bound, Some(10));
    assert_eq!(
        back.get(&puzzle_key(1, 2)).unwrap().accepted_answer,
        Some("7".to_string())
    );
}

#[test]
fn insert_replaces_an_entry() {
    let mut log = Log::new();
    let mut e = PuzzleLogEntry::new();
    e.upper_bound = Some(9);
    log.insert("k".to_string(), e);
    log.insert("k".to_string(), PuzzleLogEntry::new());
    assert_eq!(log.get(&"k".to_string()).unwrap().upper_bound, None);
    assert_eq!(log.into_entries().len(), 1);
}
