use ylog::message::{encode_message, handle_submission, MalformedMessage, RelayMessage};
use ylog::record::ContactRecord;
use ylog::timestamp::Timestamp;

fn sample() -> ContactRecord {
    ContactRecord::new(
        Timestamp::new(2023, 10, 8, 14, 5, 0).unwrap(),
        String::from("50"),
        String::from("SSB"),
        String::from("JA1YXP"),
        String::from("59"),
        String::from("13M"),
        String::from("59"),
        String::from("20M"),
        String::from("20"),
        2,
    )
    .unwrap()
}

fn malformed() -> RelayMessage {
    RelayMessage::Error(String::from("malformed"))
}

#[test]
fn submission_is_accepted() {
    let reply = handle_submission("SUBMIT 2023-10-08T14:05:00Z 50 SSB JA1YXP 59 13M 59 20M 20 2");
    assert_eq!(reply, RelayMessage::Submit(sample()));
}

#[test]
fn submission_with_empty_callsign_is_invalid() {
    let reply = handle_submission("SUBMIT 2023-10-08T14:05:00Z 50 SSB  59 13M 59 20M 20 2");
    assert_eq!(reply, RelayMessage::Error(String::from("invalid record: callsign")));
}

#[test]
fn submission_with_negative_score_is_invalid() {
    let reply = handle_submission("SUBMIT 2023-10-08T14:05:00Z 50 SSB JA1YXP 59 13M 59 20M 20 -1");
    assert_eq!(reply, RelayMessage::Error(String::from("invalid record: score")));
    let lowest =
        handle_submission("SUBMIT 2023-10-08T14:05:00Z 50 SSB JA1YXP 59 13M 59 20M 20 -2147483648");
    assert_eq!(lowest, RelayMessage::Error(String::from("invalid record: score")));
}

#[test]
fn submission_lists_every_violation() {
    let reply = handle_submission("SUBMIT 2023-10-08T14:05:00Z         -7");
    assert_eq!(
        reply,
        RelayMessage::Error(String::from(
            "invalid record: band mode callsign sent_report sent_exchange received_report \
             received_exchange multiplier score"
        ))
    );
}

#[test]
fn other_texts_are_malformed() {
    assert_eq!(handle_submission(""), malformed());
    assert_eq!(handle_submission("hello"), malformed());
    assert_eq!(handle_submission("ACK 3"), malformed());
    assert_eq!(handle_submission("ERROR malformed"), malformed());
    assert_eq!(handle_submission("SUBMIT"), malformed());
    assert_eq!(
        handle_submission("submit 2023-10-08T14:05:00Z 50 SSB JA1YXP 59 13M 59 20M 20 2"),
        malformed()
    );
    assert_eq!(
        handle_submission("SUBMIT 2023-10-08T14:05:00Z 50 SSB JA1YXP 59 13M 59 20M 20"),
        malformed()
    );
    assert_eq!(
        handle_submission("SUBMIT 2023-10-08T14:05:00Z 50 SSB JA1YXP 59 13M 59 20M 20 2 "),
        malformed()
    );
    assert_eq!(
        handle_submission(" SUBMIT 2023-10-08T14:05:00Z 50 SSB JA1YXP 59 13M 59 20M 20 2"),
        malformed()
    );
}

#[test]
fn unreadable_timestamp_is_malformed() {
    assert_eq!(
        handle_submission("SUBMIT 2023-10-08 50 SSB JA1YXP 59 13M 59 20M 20 2"),
        malformed()
    );
    assert_eq!(
        handle_submission("SUBMIT 2023-02-30T14:05:00Z 50 SSB JA1YXP 59 13M 59 20M 20 2"),
        malformed()
    );
}

#[test]
fn unreadable_score_is_malformed() {
    assert_eq!(
        handle_submission("SUBMIT 2023-10-08T14:05:00Z 50 SSB JA1YXP 59 13M 59 20M 20 two"),
        malformed()
    );
    assert_eq!(
        handle_submission("SUBMIT 2023-10-08T14:05:00Z 50 SSB JA1YXP 59 13M 59 20M 20 -"),
        malformed()
    );
    assert_eq!(
        handle_submission("SUBMIT 2023-10-08T14:05:00Z 50 SSB JA1YXP 59 13M 59 20M 20 +2"),
        malformed()
    );
    assert_eq!(
        handle_submission("SUBMIT 2023-10-08T14:05:00Z 50 SSB JA1YXP 59 13M 59 20M 20 2147483648"),
        malformed()
    );
    assert_eq!(
        handle_submission("SUBMIT 2023-10-08T14:05:00Z 50 SSB JA1YXP 59 13M 59 20M 20 -2147483649"),
        malformed()
    );
}

#[test]
fn score_may_have_leading_zeros() {
    let reply = handle_submission("SUBMIT 2023-10-08T14:05:00Z 50 SSB JA1YXP 59 13M 59 20M 20 002");
    assert_eq!(reply, RelayMessage::Submit(sample()));
}

#[test]
fn largest_score_is_accepted() {
    let reply =
        handle_submission("SUBMIT 2023-10-08T14:05:00Z 50 SSB JA1YXP 59 13M 59 20M 20 2147483647");
    match reply {
        RelayMessage::Submit(record) => assert_eq!(record.score(), i32::MAX),
        other => panic!("not accepted: {:?}", other),
    }
}

#[test]
fn messages_have_their_wire_text() {
    assert_eq!(
        encode_message(&RelayMessage::Submit(sample())),
        "SUBMIT 2023-10-08T14:05:00Z 50 SSB JA1YXP 59 13M 59 20M 20 2"
    );
    assert_eq!(encode_message(&RelayMessage::Ack(0)), "ACK 0");
    assert_eq!(encode_message(&RelayMessage::Ack(17)), "ACK 17");
    assert_eq!(encode_message(&RelayMessage::Ack(u64::MAX)), "ACK 18446744073709551615");
    assert_eq!(encode_message(&malformed()), "ERROR malformed");
    assert_eq!(
        encode_message(&RelayMessage::Error(String::from("invalid record: callsign score"))),
        "ERROR invalid record: callsign score"
    );
    assert_eq!(encode_message(&RelayMessage::Error(String::new())), "ERROR ");
}

#[test]
fn written_submission_is_accepted_again() {
    let text = encode_message(&RelayMessage::Submit(sample()));
    assert_eq!(handle_submission(&text), RelayMessage::Submit(sample()));
}

#[test]
fn malformed_has_a_reason() {
    assert_eq!(MalformedMessage.reason(), "malformed");
}

#[test]
fn message_clone_is_equal() {
    let message = RelayMessage::Submit(sample());
    assert_eq!(message.clone(), message);
    assert_eq!(RelayMessage::Ack(4).clone(), RelayMessage::Ack(4));
    assert_eq!(malformed().clone(), malformed());
}
