use aoc25::aocclient::{
    answer_form, answer_url, parse_validation_response, puzzle_input_url, verdict_from,
    wait_from_groups, AocSessionCookieStore, ValidationResult,
};

fn submit_answer_test(body: &str, expected_result: ValidationResult) {
    let base = "http://127.0.0.1:8080/";
    let url = answer_url(base, 19);
    assert_eq!(url, "http://127.0.0.1:8080/2025/day/19/answer");
    let form = answer_form(1, "THE ANSWER");
    assert!(form.contains(&("level".to_string(), "1".to_string())));
    assert!(form.contains(&("answer".to_string(), "THE ANSWER".to_string())));
    let mut store = AocSessionCookieStore::new();
    store.set_cookie("deadbeef");
    assert_eq!(store.header_text(), Some("session=deadbeef".to_string()));
    assert_eq!(parse_validation_response(body), expected_result);
}

#[test]
fn test_get_input_success() {
    let url = puzzle_input_url("http://127.0.0.1:8080/", 19);
    assert_eq!(url, "http://127.0.0.1:8080/2025/day/19/input");
    let mut store = AocSessionCookieStore::new();
    store.set_cookie("deadbeef");
    let header = store.cookies().expect("a header value");
    assert_eq!(header.to_str().unwrap(), "session=deadbeef");
}

#[test]
fn test_submit_answer_success() {
    submit_answer_test(
        "<html><p>That\'s the right answer</p></html>",
        ValidationResult::Accepted,
    );
}

#[test]
fn test_submit_answer_rejected() {
    submit_answer_test(
        "<html><p>That\'s not the right answer</p></html>",
        ValidationResult::Rejected,
    );
}

#[test]
fn test_submit_answer_rejected_too_low() {
    submit_answer_test(
        "<html><p>That\'s not the right answer - your answer is too low.</p></html>",
        ValidationResult::RejectedTooLow,
    );
}

#[test]
fn test_submit_answer_rejected_too_high() {
    submit_answer_test(
        "<html><p>That\'s not the right answer - your answer is too high.</p></html>",
        ValidationResult::RejectedTooHigh,
    );
}

#[test]
fn test_submit_answer_throttled() {
    submit_answer_test(
        "<html><p>You gave an answer too recently. You have 57s left to wait</p></html>",
        ValidationResult::Throttled(57),
    );
}

#[test]
fn test_submit_answer_throttled_with_minutes() {
    submit_answer_test(
        "<html><p>You gave an answer too recently. You have 5m 31s left to wait</p></html>",
        ValidationResult::Throttled(331),
    );
}

#[test]
fn classify_same_text_same_verdict() {
    let text = "You gave an answer too recently. You have 2m 3s left to wait";
    assert_eq!(parse_validation_response(text), parse_validation_response(text));
    assert_eq!(parse_validation_response(text), ValidationResult::Throttled(123));
}

#[test]
fn classify_last_phrase_wins() {
    let text = "your answer is too low ... That's the right answer ... your answer is too high";
    assert_eq!(parse_validation_response(text), ValidationResult::RejectedTooHigh);
    let text = "That's the right answer, but your answer is too low";
    assert_eq!(parse_validation_response(text), ValidationResult::RejectedTooLow);
    let text = "your answer is too high. That's the right answer";
    assert_eq!(parse_validation_response(text), ValidationResult::Accepted);
}

#[test]
fn classify_unknown_text_is_rejected() {
    assert_eq!(parse_validation_response(""), ValidationResult::Rejected);
    assert_eq!(
        parse_validation_response("<html>Something else entirely</html>"),
        ValidationResult::Rejected
    );
}

#[test]
fn classify_throttle_without_duration_is_rejected() {
    assert_eq!(
        parse_validation_response("You gave an answer too recently."),
        ValidationResult::Rejected
    );
}

#[test]
fn classify_throttle_with_oversized_duration_is_rejected() {
    assert_eq!(
        parse_validation_response(
            "You gave an answer too recently. You have 99999999999999999999s left to wait"
        ),
        ValidationResult::Rejected
    );
}

#[test]
fn verdict_from_takes_last_hit() {
    assert_eq!(verdict_from(&vec![], &None), ValidationResult::Rejected);
    assert_eq!(verdict_from(&vec![2, 3, 1], &None), ValidationResult::Accepted);
    assert_eq!(verdict_from(&vec![1, 2], &None), ValidationResult::RejectedTooHigh);
    assert_eq!(verdict_from(&vec![1, 0], &None), ValidationResult::Rejected);
    let groups = vec![Some("x".to_string()), Some("2".to_string()), Some("5".to_string())];
    assert_eq!(verdict_from(&vec![1, 0], &Some(groups)), ValidationResult::Throttled(125));
}

#[test]
fn wait_groups_without_minutes() {
    let groups = vec![Some("You have 9s left to wait".to_string()), None, Some("9".to_string())];
    assert_eq!(wait_from_groups(&groups), Some(9));
    let groups = vec![Some("x".to_string()), Some("".to_string()), Some("9".to_string())];
    assert_eq!(wait_from_groups(&groups), Some(9));
    let groups = vec![Some("x".to_string()), Some("1".to_string()), None];
    assert_eq!(wait_from_groups(&groups), None);
}

#[test]
fn session_store_starts_empty() {
    let store = AocSessionCookieStore::new();
    assert_eq!(store.header_text(), None);
    assert!(store.cookies().is_none());
}

#[test]
fn session_store_refuses_control_characters() {
    let mut store = AocSessionCookieStore::new();
    store.set_cookie("bad\nvalue");
    assert_eq!(store.header_text(), Some("session=bad\nvalue".to_string()));
    assert!(store.cookies().is_none());
    store.set_cookie("good");
    assert_eq!(store.header_text(), Some("session=good".to_string()));
}

#[test]
fn request_shapes_for_negative_and_two_digit_values() {
    assert_eq!(answer_url("b/", 7), "b/2025/day/7/answer");
    let form = answer_form(2, "-15");
    assert_eq!(form[0], ("level".to_string(), "2".to_string()));
    assert_eq!(form[1], ("answer".to_string(), "-15".to_string()));
}
