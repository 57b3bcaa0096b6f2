use process_intake::intake::{run_intake, Intake, IntakeError, Stage};
use process_intake::record::ProcessRecord;

fn lines(v: &[&str]) -> Vec<String> {
    v.iter().map(|s| s.to_string()).collect()
}

fn rec(id: u32, arrival_time: u32, burst_time: u32) -> ProcessRecord {
    ProcessRecord {
        id,
        arrival_time,
        burst_time,
        completion_time: 0,
        waiting_time: 0,
        turnaround_time: 0,
    }
}

#[test]
fn two_records_in_input_order() {
    let r = run_intake(&lines(&["2", "0", "5", "2", "3"]));
    assert_eq!(r, Ok(vec![rec(1, 0, 5), rec(2, 2, 3)]));
}

#[test]
fn non_integer_count_fails() {
    assert_eq!(run_intake(&lines(&["abc"])), Err(IntakeError::InvalidCount));
    assert_eq!(run_intake(&lines(&["abc", "1", "2"])), Err(IntakeError::InvalidCount));
}

#[test]
fn malformed_burst_time_fails() {
    assert_eq!(run_intake(&lines(&["1", "0", "x"])), Err(IntakeError::InvalidField));
}

#[test]
fn malformed_arrival_time_fails() {
    assert_eq!(run_intake(&lines(&["2", "0", "5", "later", "3"])), Err(IntakeError::InvalidField));
}

#[test]
fn zero_count_yields_nothing() {
    assert_eq!(run_intake(&lines(&["0"])), Ok(vec![]));
    assert_eq!(run_intake(&lines(&["0", "junk", "more junk"])), Ok(vec![]));
}

#[test]
fn zero_count_asks_for_no_more_lines() {
    let mut intake = Intake::new();
    assert_eq!(intake.stage(), Stage::Count);
    intake.feed(Some("0"));
    assert_eq!(intake.stage(), Stage::Done);
    assert_eq!(intake.finish(), Ok(vec![]));
}

#[test]
fn ids_follow_input_order() {
    let r = run_intake(&lines(&["3", "4", "1", "0", "9", "7", "2"])).unwrap();
    assert_eq!(r.len(), 3);
    for (i, p) in r.iter().enumerate() {
        assert_eq!(p.id, i as u32 + 1);
        assert_eq!(p.completion_time, 0);
        assert_eq!(p.waiting_time, 0);
        assert_eq!(p.turnaround_time, 0);
    }
    assert_eq!(r, vec![rec(1, 4, 1), rec(2, 0, 9), rec(3, 7, 2)]);
}

#[test]
fn lines_after_the_last_record_are_ignored() {
    let r = run_intake(&lines(&["1", "3", "4", "oops"]));
    assert_eq!(r, Ok(vec![rec(1, 3, 4)]));
}

#[test]
fn empty_input_is_a_read_failure() {
    assert_eq!(run_intake(&lines(&[])), Err(IntakeError::ReadFailure));
}

#[test]
fn truncated_input_is_a_read_failure() {
    assert_eq!(run_intake(&lines(&["2", "0", "5", "2"])), Err(IntakeError::ReadFailure));
    assert_eq!(run_intake(&lines(&["1"])), Err(IntakeError::ReadFailure));
}

#[test]
fn negative_count_fails() {
    assert_eq!(run_intake(&lines(&["-1", "0", "5"])), Err(IntakeError::InvalidCount));
}

#[test]
fn empty_count_line_fails() {
    assert_eq!(run_intake(&lines(&[""])), Err(IntakeError::InvalidCount));
    assert_eq!(run_intake(&lines(&["   "])), Err(IntakeError::InvalidCount));
}

#[test]
fn values_may_carry_whitespace_and_plus() {
    let r = run_intake(&lines(&[" 1\n", "\t+6 ", "7\r\n"]));
    assert_eq!(r, Ok(vec![rec(1, 6, 7)]));
}

#[test]
fn largest_time_value_is_accepted() {
    let r = run_intake(&lines(&["1", "4294967295", "0"]));
    assert_eq!(r, Ok(vec![rec(1, 4294967295, 0)]));
    let r = run_intake(&lines(&["1", "4294967296", "0"]));
    assert_eq!(r, Err(IntakeError::InvalidField));
}

#[test]
fn error_stops_the_intake_for_good() {
    let mut intake = Intake::new();
    intake.feed(Some("2"));
    assert_eq!(intake.stage(), Stage::Arrival);
    assert_eq!(intake.next_id(), 1);
    intake.feed(Some("1"));
    assert_eq!(intake.stage(), Stage::Burst);
    intake.feed(Some("1.5"));
    assert_eq!(intake.stage(), Stage::Failed(IntakeError::InvalidField));
    intake.feed(Some("3"));
    assert_eq!(intake.stage(), Stage::Failed(IntakeError::InvalidField));
    assert_eq!(intake.finish(), Err(IntakeError::InvalidField));
}

#[test]
fn machine_walks_through_each_record() {
    let mut intake = Intake::new();
    intake.feed(Some("2"));
    intake.feed(Some("0"));
    intake.feed(Some("5"));
    assert_eq!(intake.stage(), Stage::Arrival);
    assert_eq!(intake.next_id(), 2);
    intake.feed(Some("2"));
    intake.feed(Some("3"));
    assert_eq!(intake.stage(), Stage::Done);
    assert_eq!(intake.finish(), Ok(vec![rec(1, 0, 5), rec(2, 2, 3)]));
}

#[test]
fn missing_line_fails_the_machine() {
    let mut intake = Intake::new();
    intake.feed(None);
    assert_eq!(intake.stage(), Stage::Failed(IntakeError::ReadFailure));
    let mut intake = Intake::new();
    intake.feed(Some("1"));
    assert_eq!(intake.finish(), Err(IntakeError::ReadFailure));
}

#[test]
fn new_record_is_unscheduled() {
    let r = ProcessRecord::new(4, 10, 20);
    assert_eq!(r, rec(4, 10, 20));
}
