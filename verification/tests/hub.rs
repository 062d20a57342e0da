use ylog::hub::{ConnectionState, Delivery, RelayHub};
use ylog::logsheet::SinkUnavailable;
use ylog::message::RelayMessage;

const FIRST: &str = "SUBMIT 2023-10-08T14:05:00Z 50 SSB JA1YXP 59 13M 59 20M 20 2";
const SECOND: &str = "SUBMIT 2023-10-08T14:06:00Z 50 SSB JA1ZGP 59 13M 59 21M 21 1";
const FIRST_BRACKET: &str =
    "<LOGSHEET TYPE=ylog>\n2023-10-08 14:05 50 SSB JA1YXP 59 13M 59 20M 20 2\n\n</LOGSHEET>\n";
const SECOND_BRACKET: &str =
    "<LOGSHEET TYPE=ylog>\n2023-10-08 14:06 50 SSB JA1ZGP 59 13M 59 21M 21 1\n\n</LOGSHEET>\n";

fn open_connection(hub: &mut RelayHub) -> u64 {
    let id = hub.connect();
    hub.open(id);
    id
}

fn ack(to: u64, sequence: u64) -> Delivery {
    Delivery { to, message: RelayMessage::Ack(sequence) }
}

fn error(to: u64, reason: &str) -> Delivery {
    Delivery { to, message: RelayMessage::Error(String::from(reason)) }
}

/// Writes what the hub asks for to `file`, as a sink that never fails
/// would, and returns everything that the hub sent meanwhile.
fn drain(hub: &mut RelayHub, file: &mut String) -> Vec<Delivery> {
    let mut sent = Vec::new();
    while let Some(text) = hub.next_write() {
        file.push_str(&text);
        sent.extend(hub.complete(Ok(())));
    }
    sent
}

#[test]
fn new_hub_is_empty() {
    let hub = RelayHub::new();
    assert_eq!(hub.pending(), 0);
    assert_eq!(hub.next_write(), None);
    assert_eq!(hub.state_of(0), ConnectionState::Closed);
    assert!(hub.can_connect());
    assert!(hub.can_accept());
}

#[test]
fn connection_goes_through_its_states() {
    let mut hub = RelayHub::new();
    let id = hub.connect();
    assert_eq!(id, 0);
    assert_eq!(hub.state_of(id), ConnectionState::Connecting);
    hub.open(id);
    assert_eq!(hub.state_of(id), ConnectionState::Open);
    hub.close(id);
    assert_eq!(hub.state_of(id), ConnectionState::Closing);
    hub.open(id);
    assert_eq!(hub.state_of(id), ConnectionState::Closing);
    hub.disconnect(id);
    assert_eq!(hub.state_of(id), ConnectionState::Closed);
    hub.open(id);
    assert_eq!(hub.state_of(id), ConnectionState::Closed);
}

#[test]
fn connection_may_close_before_it_opens() {
    let mut hub = RelayHub::new();
    let id = hub.connect();
    hub.close(id);
    assert_eq!(hub.state_of(id), ConnectionState::Closing);
}

#[test]
fn connections_get_rising_ids() {
    let mut hub = RelayHub::new();
    assert_eq!(hub.connect(), 0);
    assert_eq!(hub.connect(), 1);
    hub.disconnect(0);
    assert_eq!(hub.connect(), 2);
    assert_eq!(hub.state_of(0), ConnectionState::Closed);
    assert_eq!(hub.state_of(1), ConnectionState::Connecting);
    assert_eq!(hub.state_of(2), ConnectionState::Connecting);
}

#[test]
fn states_of_others_are_untouched() {
    let mut hub = RelayHub::new();
    let a = open_connection(&mut hub);
    let b = hub.connect();
    let c = open_connection(&mut hub);
    hub.close(c);
    hub.disconnect(a);
    assert_eq!(hub.state_of(a), ConnectionState::Closed);
    assert_eq!(hub.state_of(b), ConnectionState::Connecting);
    assert_eq!(hub.state_of(c), ConnectionState::Closing);
}

#[test]
fn submission_is_queued_and_not_yet_acknowledged() {
    let mut hub = RelayHub::new();
    let a = open_connection(&mut hub);
    assert_eq!(hub.receive(a, FIRST), Vec::new());
    assert_eq!(hub.pending(), 1);
    assert_eq!(hub.next_write(), Some(String::from(FIRST_BRACKET)));
    assert_eq!(hub.next_write(), Some(String::from(FIRST_BRACKET)));
}

#[test]
fn acknowledgement_goes_to_every_open_connection() {
    let mut hub = RelayHub::new();
    let a = open_connection(&mut hub);
    let b = open_connection(&mut hub);
    let connecting = hub.connect();
    let closing = open_connection(&mut hub);
    hub.close(closing);
    let c = open_connection(&mut hub);
    assert_eq!(connecting, 2);
    hub.receive(b, FIRST);
    assert_eq!(hub.complete(Ok(())), vec![ack(a, 0), ack(b, 0), ack(c, 0)]);
    assert_eq!(hub.pending(), 0);
    assert_eq!(hub.next_write(), None);
}

#[test]
fn acknowledgements_come_in_the_order_of_acceptance() {
    let mut hub = RelayHub::new();
    let a = open_connection(&mut hub);
    let b = open_connection(&mut hub);
    let c = open_connection(&mut hub);
    hub.receive(c, SECOND);
    hub.receive(a, FIRST);
    hub.receive(b, SECOND);
    hub.receive(a, SECOND);
    let mut file = String::new();
    let sent = drain(&mut hub, &mut file);
    for id in [a, b, c] {
        let sequences: Vec<u64> = sent
            .iter()
            .filter(|delivery| delivery.to == id)
            .map(|delivery| match &delivery.message {
                RelayMessage::Ack(sequence) => *sequence,
                other => panic!("not an acknowledgement: {:?}", other),
            })
            .collect();
        assert_eq!(sequences, vec![0, 1, 2, 3]);
    }
    assert_eq!(
        file,
        format!("{SECOND_BRACKET}{FIRST_BRACKET}{SECOND_BRACKET}{SECOND_BRACKET}")
    );
}

#[test]
fn empty_callsign_never_reaches_the_sink() {
    let mut hub = RelayHub::new();
    let a = open_connection(&mut hub);
    let b = open_connection(&mut hub);
    let sent = hub.receive(a, "SUBMIT 2023-10-08T14:05:00Z 50 SSB  59 13M 59 20M 20 2");
    assert_eq!(sent, vec![error(a, "invalid record: callsign")]);
    assert_eq!(hub.pending(), 0);
    assert_eq!(hub.next_write(), None);
    assert_eq!(hub.complete(Ok(())), Vec::new());
    assert_eq!(hub.state_of(b), ConnectionState::Open);
}

#[test]
fn negative_score_never_reaches_the_sink() {
    let mut hub = RelayHub::new();
    let a = open_connection(&mut hub);
    let sent = hub.receive(a, "SUBMIT 2023-10-08T14:05:00Z 50 SSB JA1YXP 59 13M 59 20M 20 -1");
    assert_eq!(sent, vec![error(a, "invalid record: score")]);
    assert_eq!(hub.pending(), 0);
    assert_eq!(hub.next_write(), None);
}

#[test]
fn malformed_text_is_answered_to_the_sender_alone() {
    let mut hub = RelayHub::new();
    let a = open_connection(&mut hub);
    let b = open_connection(&mut hub);
    hub.receive(a, FIRST);
    assert_eq!(hub.receive(b, "what is this"), vec![error(b, "malformed")]);
    assert_eq!(hub.pending(), 1);
    assert_eq!(hub.state_of(a), ConnectionState::Open);
    assert_eq!(hub.state_of(b), ConnectionState::Open);
    assert_eq!(hub.complete(Ok(())), vec![ack(a, 0), ack(b, 0)]);
}

#[test]
fn only_open_connections_may_submit() {
    let mut hub = RelayHub::new();
    let connecting = hub.connect();
    let closing = open_connection(&mut hub);
    hub.close(closing);
    assert_eq!(hub.receive(connecting, FIRST), Vec::new());
    assert_eq!(hub.receive(closing, FIRST), Vec::new());
    assert_eq!(hub.receive(77, FIRST), Vec::new());
    assert_eq!(hub.receive(connecting, "what is this"), Vec::new());
    assert_eq!(hub.pending(), 0);
}

#[test]
fn submitted_contact_is_exported() {
    let mut hub = RelayHub::new();
    let a = open_connection(&mut hub);
    hub.receive(a, FIRST);
    let mut file = String::new();
    let sent = drain(&mut hub, &mut file);
    assert_eq!(sent, vec![ack(a, 0)]);
    let lines: Vec<&str> = file.lines().collect();
    assert_eq!(
        lines,
        vec![
            "<LOGSHEET TYPE=ylog>",
            "2023-10-08 14:05 50 SSB JA1YXP 59 13M 59 20M 20 2",
            "",
            "</LOGSHEET>",
        ]
    );
}

#[test]
fn two_connections_submit_together() {
    let mut hub = RelayHub::new();
    let a = open_connection(&mut hub);
    let b = open_connection(&mut hub);
    assert_eq!(hub.receive(a, FIRST), Vec::new());
    assert_eq!(hub.receive(b, SECOND), Vec::new());
    assert_eq!(hub.pending(), 2);
    let mut file = String::new();
    let sent = drain(&mut hub, &mut file);
    assert_eq!(sent, vec![ack(a, 0), ack(b, 0), ack(a, 1), ack(b, 1)]);
    let own_of_a =
        sent.iter().filter(|delivery| **delivery == ack(a, 0)).count();
    let own_of_b =
        sent.iter().filter(|delivery| **delivery == ack(b, 1)).count();
    assert_eq!(own_of_a, 1);
    assert_eq!(own_of_b, 1);
    let record_lines: Vec<&str> = file.lines().filter(|line| line.starts_with("2023")).collect();
    assert_eq!(
        record_lines,
        vec![
            "2023-10-08 14:05 50 SSB JA1YXP 59 13M 59 20M 20 2",
            "2023-10-08 14:06 50 SSB JA1ZGP 59 13M 59 21M 21 1",
        ]
    );
    assert_eq!(file, format!("{FIRST_BRACKET}{SECOND_BRACKET}"));
}

#[test]
fn submitter_that_left_is_still_served() {
    let mut hub = RelayHub::new();
    let a = open_connection(&mut hub);
    let b = open_connection(&mut hub);
    let c = open_connection(&mut hub);
    hub.receive(a, FIRST);
    hub.disconnect(a);
    assert_eq!(hub.pending(), 1);
    let mut file = String::new();
    let sent = drain(&mut hub, &mut file);
    assert_eq!(file, FIRST_BRACKET);
    assert_eq!(sent, vec![ack(b, 0), ack(c, 0)]);
}

#[test]
fn closing_connection_gets_no_acknowledgement() {
    let mut hub = RelayHub::new();
    let a = open_connection(&mut hub);
    let b = open_connection(&mut hub);
    hub.receive(a, FIRST);
    hub.close(a);
    assert_eq!(hub.complete(Ok(())), vec![ack(b, 0)]);
}

#[test]
fn sink_failure_is_reported_to_the_submitter_alone() {
    let mut hub = RelayHub::new();
    let a = open_connection(&mut hub);
    let b = open_connection(&mut hub);
    hub.receive(b, FIRST);
    hub.receive(a, SECOND);
    assert_eq!(hub.complete(Err(SinkUnavailable)), vec![error(b, "sink unavailable")]);
    assert_eq!(hub.pending(), 1);
    assert_eq!(hub.next_write(), Some(String::from(SECOND_BRACKET)));
    assert_eq!(hub.complete(Ok(())), vec![ack(a, 1), ack(b, 1)]);
    assert_eq!(hub.state_of(a), ConnectionState::Open);
    assert_eq!(hub.state_of(b), ConnectionState::Open);
}

#[test]
fn sink_failure_for_a_submitter_that_left_is_dropped() {
    let mut hub = RelayHub::new();
    let a = open_connection(&mut hub);
    let b = open_connection(&mut hub);
    hub.receive(a, FIRST);
    hub.disconnect(a);
    assert_eq!(hub.complete(Err(SinkUnavailable)), Vec::new());
    assert_eq!(hub.pending(), 0);
    assert_eq!(hub.state_of(b), ConnectionState::Open);
}

#[test]
fn completing_nothing_sends_nothing() {
    let mut hub = RelayHub::new();
    let a = open_connection(&mut hub);
    assert_eq!(hub.complete(Ok(())), Vec::new());
    assert_eq!(hub.complete(Err(SinkUnavailable)), Vec::new());
    hub.receive(a, FIRST);
    assert_eq!(hub.complete(Ok(())), vec![ack(a, 0)]);
}

#[test]
fn sequence_ids_skip_what_was_refused() {
    let mut hub = RelayHub::new();
    let a = open_connection(&mut hub);
    hub.receive(a, "nonsense");
    hub.receive(a, FIRST);
    hub.receive(a, "SUBMIT 2023-10-08T14:05:00Z 50 SSB  59 13M 59 20M 20 2");
    hub.receive(a, SECOND);
    assert_eq!(hub.complete(Ok(())), vec![ack(a, 0)]);
    assert_eq!(hub.complete(Ok(())), vec![ack(a, 1)]);
}
