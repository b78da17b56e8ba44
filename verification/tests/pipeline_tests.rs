use attendance::pipeline::aggregate_participant;
use attendance::pipeline::aggregate_students;
use attendance::pipeline::collect_students;
use attendance::pipeline::sort_by_start_instant;
use attendance::pipeline::CheckinEvent;
use attendance::pipeline::Participant;
use attendance::pipeline::ParticipantRecord;
use attendance::pipeline::PipelineError;
use attendance::pipeline::Student;

fn participant(first: &str, last: &str, rank: &str) -> Participant {
    Participant {
        student_id: "S1".to_string(),
        membership_registration_id: "R1".to_string(),
        participant_id: "P1".to_string(),
        participant_first_name: first.to_string(),
        participant_last_name: last.to_string(),
        rank_name: rank.to_string(),
    }
}

fn event(status: &str, time: &str) -> CheckinEvent {
    CheckinEvent {
        checkin_status: status.to_string(),
        checkin_time_utc: time.to_string(),
    }
}

fn record(first: &str, events: Vec<CheckinEvent>) -> ParticipantRecord {
    ParticipantRecord {
        participant: participant(first, "Lovelace", "Blue"),
        class_details: events,
    }
}

fn student(name: &str, start: i64) -> Student {
    Student {
        name: name.to_string(),
        belt: "Blue".to_string(),
        time_start_dt: start,
        time_start: "07:00 am".to_string(),
        time_end: "08:00 am".to_string(),
    }
}

#[test]
fn two_cancel_checkins_make_a_two_hour_window() {
    let rec = record(
        "Ada",
        vec![
            event("Cancel check in", "2024-01-01 14:00:00"),
            event("Cancel check in", "2024-01-01 15:00:00"),
            event("Checked in", "2024-01-01 16:00:00"),
        ],
    );
    let st = aggregate_participant(&rec).unwrap().unwrap();
    // Two qualifying events: the window starts at 14:00 UTC and ends two
    // hours later, both shown in Phoenix local time (UTC-7).
    assert_eq!(st.time_start_dt, 1704117600);
    assert_eq!(st.time_start, "07:00 am");
    assert_eq!(st.time_end, "09:00 am");
    assert_eq!(st.name, "Ada Lovelace");
    assert_eq!(st.belt, "Blue");
}

#[test]
fn only_checked_in_events_give_no_student() {
    let rec = record(
        "Ada",
        vec![
            event("Checked in", "2024-01-01 14:00:00"),
            event("Checked in", "2024-01-01 15:00:00"),
        ],
    );
    assert!(matches!(aggregate_participant(&rec), Ok(None)));
}

#[test]
fn no_events_give_no_student() {
    let rec = record("Ada", vec![]);
    assert!(matches!(aggregate_participant(&rec), Ok(None)));
}

#[test]
fn earliest_qualifying_event_starts_the_window() {
    let rec = record(
        "Ada",
        vec![
            event("Cancel check in", "2024-01-01 15:00:00"),
            event("Cancel check in", "2024-01-01 14:00:00"),
        ],
    );
    let st = aggregate_participant(&rec).unwrap().unwrap();
    assert_eq!(st.time_start_dt, 1704117600);
    assert_eq!(st.time_end, "09:00 am");
}

#[test]
fn malformed_qualifying_timestamp_aborts() {
    let rec = record(
        "Ada",
        vec![
            event("Cancel check in", "2024-01-01 14:00:00"),
            event("Cancel check in", "not a time"),
        ],
    );
    assert_eq!(
        aggregate_participant(&rec).err(),
        Some(PipelineError::TimeParseFailure)
    );
}

#[test]
fn malformed_non_qualifying_timestamp_is_ignored() {
    let rec = record(
        "Ada",
        vec![
            event("Checked in", "garbage"),
            event("Cancel check in", "2024-01-01 14:00:00"),
        ],
    );
    let st = aggregate_participant(&rec).unwrap().unwrap();
    assert_eq!(st.time_start_dt, 1704117600);
    assert_eq!(st.time_end, "08:00 am");
}

#[test]
fn collect_skips_participants_without_qualifying_events() {
    let recs = vec![
        record("Ada", vec![event("Checked in", "2024-01-01 14:00:00")]),
        record("Grace", vec![event("Cancel check in", "2024-01-01 15:00:00")]),
    ];
    let out = collect_students(&recs).unwrap();
    assert_eq!(out.len(), 1);
    assert_eq!(out[0].name, "Grace Lovelace");
}

#[test]
fn one_malformed_record_aborts_the_whole_collection() {
    let recs = vec![
        record("Ada", vec![event("Cancel check in", "2024-01-01 14:00:00")]),
        record("Grace", vec![event("Cancel check in", "2024-13-01 15:00:00")]),
    ];
    assert_eq!(
        collect_students(&recs).err(),
        Some(PipelineError::TimeParseFailure)
    );
}

#[test]
fn snapshot_is_sorted_by_start_instant() {
    let recs = vec![
        record("Late", vec![event("Cancel check in", "2024-01-01 16:00:00")]),
        record("Early", vec![event("Cancel check in", "2024-01-01 14:00:00")]),
        record("Middle", vec![event("Cancel check in", "2024-01-01 15:00:00")]),
    ];
    let out = aggregate_students(&recs).unwrap();
    let names: Vec<&str> = out.iter().map(|s| s.name.as_str()).collect();
    assert_eq!(names, vec!["Early Lovelace", "Middle Lovelace", "Late Lovelace"]);
    assert!(out.windows(2).all(|w| w[0].time_start_dt <= w[1].time_start_dt));
}

#[test]
fn equal_starts_keep_participant_order() {
    let recs = vec![
        record("First", vec![event("Cancel check in", "2024-01-01 14:00:00")]),
        record("Second", vec![event("Cancel check in", "2024-01-01 14:00:00")]),
        record("Ahead", vec![event("Cancel check in", "2024-01-01 13:00:00")]),
    ];
    let out = aggregate_students(&recs).unwrap();
    let names: Vec<&str> = out.iter().map(|s| s.name.as_str()).collect();
    assert_eq!(
        names,
        vec!["Ahead Lovelace", "First Lovelace", "Second Lovelace"]
    );
}

#[test]
fn sort_is_stable_for_equal_keys() {
    let v = vec![
        student("b", 5),
        student("a", 3),
        student("c", 5),
        student("d", 3),
    ];
    let sorted = sort_by_start_instant(v);
    let names: Vec<&str> = sorted.iter().map(|s| s.name.as_str()).collect();
    assert_eq!(names, vec!["a", "d", "b", "c"]);
}
