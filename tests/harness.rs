use tal_utils::{audit_target, classify, gen_data, render_case_line, HarnessError, Outcome, RunOptions, Tally, Verdict};

fn text(b: Vec<u8>) -> String {
    String::from_utf8(b).unwrap()
}

#[test]
fn gen_data_stops_at_named_group() {
    let groups = [("small", 2, 1u32), ("medium", 1, 5u32), ("large", 3, 9u32)];
    assert_eq!(gen_data("medium", &groups), vec![1, 1, 5]);
    assert_eq!(gen_data("small", &groups), vec![1, 1]);
    assert_eq!(gen_data("large", &groups), vec![1, 1, 5, 9, 9, 9]);
}

#[test]
fn gen_data_without_match_takes_all() {
    let groups = [("a", 1, "x"), ("b", 2, "y")];
    assert_eq!(gen_data("zzz", &groups), vec!["x", "y", "y"]);
}

#[test]
fn gen_data_empty_groups() {
    let groups: [(&str, usize, i32); 0] = [];
    assert_eq!(gen_data("a", &groups), Vec::<i32>::new());
}

#[test]
fn gen_data_first_of_equal_names() {
    let groups = [("a", 1, 1), ("a", 1, 2), ("b", 0, 3)];
    assert_eq!(gen_data("a", &groups), vec![1]);
    assert_eq!(gen_data("b", &groups), vec![1, 2]);
}

#[test]
fn classification_priority() {
    assert_eq!(classify(None, 0, 10), Outcome::RE);
    assert_eq!(classify(None, 50, 10), Outcome::RE);
    assert_eq!(classify(Some(true), 11, 10), Outcome::TLE);
    assert_eq!(classify(Some(false), 11, 10), Outcome::TLE);
    assert_eq!(classify(Some(true), 10, 10), Outcome::AC);
    assert_eq!(classify(Some(false), 3, 10), Outcome::WA);
}

#[test]
fn case_numbers_are_padded_to_three_digits() {
    assert_eq!(text(render_case_line(1, Outcome::AC, None)), "Case #001: AC\n");
    assert_eq!(text(render_case_line(42, Outcome::WA, None)), "Case #042: WA\n");
    assert_eq!(text(render_case_line(100, Outcome::TLE, None)), "Case #100: TLE\n");
    assert_eq!(text(render_case_line(1000, Outcome::RE, None)), "Case #1000: RE\n");
}

#[test]
fn wall_time_has_three_decimals() {
    assert_eq!(
        text(render_case_line(1, Outcome::AC, Some(123_000_000))),
        "Case #001: AC | Time: 0.123s\n"
    );
    assert_eq!(
        text(render_case_line(7, Outcome::TLE, Some(2_000_600_000))),
        "Case #007: TLE | Time: 2.001s\n"
    );
    assert_eq!(
        text(render_case_line(7, Outcome::WA, Some(999_499_999))),
        "Case #007: WA | Time: 0.999s\n"
    );
}

#[test]
fn unknown_case_count_is_refused() {
    assert!(matches!(Tally::start((3, None)), Err(HarnessError::UnknownCaseCount)));
    assert!(matches!(Tally::start((2, Some(5))), Err(HarnessError::UnknownCaseCount)));
    let t = Tally::start((4, Some(4))).unwrap();
    assert_eq!((t.total, t.tc_n, t.tc_ok), (4, 0, 0));
}

#[test]
fn verdict_conversions() {
    let v: Verdict = true.into();
    assert!(v.ok && v.msg.is_none());
    let v: Verdict = (false, "bad".to_string()).into();
    assert!(!v.ok && v.msg.as_deref() == Some("bad"));
    let v: Verdict = (true, None).into();
    assert!(v.ok && v.msg.is_none());
}

#[test]
fn default_options() {
    let o = RunOptions::default();
    assert_eq!(o.time_limit_ns, 1_000_000_000);
    assert!(!o.public_wall_time);
    assert_eq!(RunOptions::with_time_limit_ns(5).time_limit_ns, 5);
}

#[test]
fn end_to_end_ac_then_tle() {
    let options = RunOptions::with_time_limit_ns(1_000_000_000);
    let mut t = Tally::start((2, Some(2))).unwrap();
    let mut report = Vec::new();
    report.extend(t.record(&options, Some(Verdict::from(true)), 100_000_000));
    report.extend(t.record(&options, Some(Verdict::from(true)), 1_500_000_000));
    assert!(t.is_complete());
    report.extend(t.score_report());
    assert_eq!(text(report), "Case #001: AC\nCase #002: TLE\n\nScore: 1/2\n");
}

#[test]
fn report_with_messages_times_and_runtime_error() {
    let options = RunOptions { time_limit_ns: 1_000_000_000, public_wall_time: true };
    let mut t = Tally::start((3, Some(3))).unwrap();
    let mut report = Vec::new();
    report.extend(t.record(&options, Some(Verdict::from((false, "expected 3".to_string()))), 5_000_000));
    report.extend(t.record(&options, None, 0));
    report.extend(t.record(&options, Some(Verdict::from((true, None))), 250_000_000));
    report.extend(t.score_report());
    assert_eq!(
        text(report),
        "Case #001: WA | Time: 0.005s\n\nexpected 3\n\nCase #002: RE\nCase #003: AC | Time: 0.250s\n\nScore: 1/3\n"
    );
    assert_eq!((t.tc_n, t.tc_ok), (3, 1));
}

#[test]
fn audit_needs_both_token_and_storage() {
    assert!(audit_target(Some("tok".to_string()), None).is_none());
    assert!(audit_target(None, Some("db".to_string())).is_none());
    assert_eq!(
        audit_target(Some("tok".to_string()), Some("db".to_string())),
        Some(("tok".to_string(), "db".to_string()))
    );
}
