use ylog::record::{ContactRecord, Field, InvalidRecord};
use ylog::timestamp::Timestamp;

fn stamp() -> Timestamp {
    Timestamp::new(2023, 10, 8, 14, 5, 0).unwrap()
}

fn make(callsign: &str, score: i32) -> Result<ContactRecord, InvalidRecord> {
    ContactRecord::new(
        stamp(),
        String::from("50"),
        String::from("SSB"),
        String::from(callsign),
        String::from("59"),
        String::from("13M"),
        String::from("59"),
        String::from("20M"),
        String::from("20"),
        score,
    )
}

#[test]
fn new_keeps_every_field() {
    let record = make("JA1YXP", 2).unwrap();
    assert_eq!(record.timestamp(), stamp());
    assert_eq!(record.band(), "50");
    assert_eq!(record.mode(), "SSB");
    assert_eq!(record.callsign(), "JA1YXP");
    assert_eq!(record.sent_report(), "59");
    assert_eq!(record.sent_exchange(), "13M");
    assert_eq!(record.received_report(), "59");
    assert_eq!(record.received_exchange(), "20M");
    assert_eq!(record.multiplier(), "20");
    assert_eq!(record.score(), 2);
}

#[test]
fn empty_callsign_is_invalid() {
    let error = make("", 2).unwrap_err();
    assert_eq!(error.violations, vec![Field::Callsign]);
}

#[test]
fn score_of_minus_one_is_invalid() {
    let error = make("JA1YXP", -1).unwrap_err();
    assert_eq!(error.violations, vec![Field::Score]);
}

#[test]
fn lowest_score_is_invalid() {
    let error = make("JA1YXP", i32::MIN).unwrap_err();
    assert_eq!(error.violations, vec![Field::Score]);
}

#[test]
fn score_of_zero_is_valid() {
    assert_eq!(make("JA1YXP", 0).unwrap().score(), 0);
    assert_eq!(make("JA1YXP", i32::MAX).unwrap().score(), i32::MAX);
}

#[test]
fn every_violation_is_listed_in_order() {
    let error = ContactRecord::new(
        stamp(),
        String::new(),
        String::new(),
        String::new(),
        String::new(),
        String::new(),
        String::new(),
        String::new(),
        String::new(),
        -5,
    )
    .unwrap_err();
    assert_eq!(
        error.violations,
        vec![
            Field::Band,
            Field::Mode,
            Field::Callsign,
            Field::SentReport,
            Field::SentExchange,
            Field::ReceivedReport,
            Field::ReceivedExchange,
            Field::Multiplier,
            Field::Score,
        ]
    );
}

#[test]
fn some_violations_are_listed_in_order() {
    let error = ContactRecord::new(
        stamp(),
        String::from("50"),
        String::new(),
        String::from("JA1YXP"),
        String::from("59"),
        String::new(),
        String::from("59"),
        String::from("20M"),
        String::new(),
        -1,
    )
    .unwrap_err();
    assert_eq!(
        error.violations,
        vec![Field::Mode, Field::SentExchange, Field::Multiplier, Field::Score]
    );
}

#[test]
fn reason_names_the_violations() {
    assert_eq!(make("", 2).unwrap_err().reason(), "invalid record: callsign");
    assert_eq!(make("", -1).unwrap_err().reason(), "invalid record: callsign score");
    let none = InvalidRecord { violations: Vec::new() };
    assert_eq!(none.reason(), "invalid record:");
}

#[test]
fn field_names_are_those_of_the_record() {
    assert_eq!(Field::Band.name(), "band");
    assert_eq!(Field::Mode.name(), "mode");
    assert_eq!(Field::Callsign.name(), "callsign");
    assert_eq!(Field::SentReport.name(), "sent_report");
    assert_eq!(Field::SentExchange.name(), "sent_exchange");
    assert_eq!(Field::ReceivedReport.name(), "received_report");
    assert_eq!(Field::ReceivedExchange.name(), "received_exchange");
    assert_eq!(Field::Multiplier.name(), "multiplier");
    assert_eq!(Field::Score.name(), "score");
}

#[test]
fn clone_is_equal() {
    let record = make("JA1YXP", 2).unwrap();
    assert_eq!(record.clone(), record);
}

#[test]
fn blank_inside_a_field_is_accepted() {
    let record = make("JA1 YXP", 2).unwrap();
    assert_eq!(record.callsign(), "JA1 YXP");
}
