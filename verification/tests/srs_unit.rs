use chrono::{DateTime, Duration, Utc};
use reemember::clock::Timestamp;
use reemember::srs::{compute_next_due, next_due_instant, review_interval_secs};

fn timestamp_of(t: DateTime<Utc>) -> Timestamp {
    Timestamp { secs: t.timestamp(), nanos: t.timestamp_subsec_nanos() }
}

#[test]
fn wrong_answer_due_is_soon() {
    let now = Utc::now();
    let due = compute_next_due(timestamp_of(now), false, 0);
    let parsed = DateTime::parse_from_rfc3339(&due).unwrap().with_timezone(&Utc);
    assert!(parsed >= now + Duration::minutes(9));
}

#[test]
fn correct_answer_interval_grows_with_count() {
    let now = timestamp_of(Utc::now());
    let low = DateTime::parse_from_rfc3339(&compute_next_due(now, true, 0)).unwrap().with_timezone(&Utc);
    let high = DateTime::parse_from_rfc3339(&compute_next_due(now, true, 8)).unwrap().with_timezone(&Utc);

    assert!(high > low);
}

#[test]
fn review_intervals_follow_the_tiers() {
    assert_eq!(review_interval_secs(false, 0), 600);
    assert_eq!(review_interval_secs(false, 50), 600);
    assert_eq!(review_interval_secs(true, 0), 86_400);
    assert_eq!(review_interval_secs(true, 1), 86_400);
    assert_eq!(review_interval_secs(true, 2), 3 * 86_400);
    assert_eq!(review_interval_secs(true, 3), 3 * 86_400);
    assert_eq!(review_interval_secs(true, 4), 7 * 86_400);
    assert_eq!(review_interval_secs(true, 6), 7 * 86_400);
    assert_eq!(review_interval_secs(true, 7), 14 * 86_400);
    assert_eq!(review_interval_secs(true, u32::MAX), 14 * 86_400);
}

#[test]
fn next_due_instant_adds_the_interval() {
    let now = Timestamp { secs: 1_776_679_200, nanos: 5 };
    let due = next_due_instant(now, true, 2);
    assert_eq!(due, Timestamp { secs: 1_776_679_200 + 3 * 86_400, nanos: 5 });
}

#[test]
fn compute_next_due_writes_rfc3339() {
    let now = Timestamp { secs: 1_776_679_200, nanos: 0 };
    assert_eq!(compute_next_due(now, false, 0), "2026-04-20T10:10:00+00:00");
    assert_eq!(compute_next_due(now, true, 0), "2026-04-21T10:00:00+00:00");
}
