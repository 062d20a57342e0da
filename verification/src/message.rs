//! Relay messages and their text form on the wire.
//!
//! A message is one line of text. Its first word names the kind:
//! `SUBMIT` with a timestamp, eight text fields and a score, one space
//! between neighbours; `ACK` with a sequence id; `ERROR` with a reason that
//! runs to the end of the text.

use crate::logsheet::{lemma_digits_plain, plain_record};
use crate::record::{reason_text, ContactRecord, RecordView};
use crate::text::{
    chars_of, decimal, digit_value, join, lemma_decimal_round_trip, lemma_join_push,
    lemma_split_join, number_up_to, parse_number, push_decimal, split, split_fields,
};
use crate::timestamp::{lemma_wire_round_trip, parse_valid_moment, Timestamp};
use vstd::prelude::*;
use vstd::string::StringExecFns;

verus! {

/// What a relay message holds, as mathematical values.
pub enum MessageView {
    Submit(RecordView),
    Ack(nat),
    Error(Seq<char>),
}

/// A message between a client and the hub.
#[derive(Debug, PartialEq, Eq)]
pub enum RelayMessage {
    /// A client hands in a contact.
    Submit(ContactRecord),
    /// The submission with this sequence id has been persisted.
    Ack(u64),
    /// Something was refused; the text says why.
    Error(String),
}

impl View for RelayMessage {
    type V = MessageView;

    open spec fn view(&self) -> MessageView {
        match self {
            RelayMessage::Submit(record) => MessageView::Submit(record@),
            RelayMessage::Ack(sequence) => MessageView::Ack(*sequence as nat),
            RelayMessage::Error(reason) => MessageView::Error(reason@),
        }
    }
}

impl Clone for RelayMessage {
    fn clone(&self) -> (copy: Self)
        ensures
            copy@ == self@,
    {
        match self {
            RelayMessage::Submit(record) => RelayMessage::Submit(record.clone()),
            RelayMessage::Ack(sequence) => RelayMessage::Ack(*sequence),
            RelayMessage::Error(reason) => RelayMessage::Error(reason.clone()),
        }
    }
}

/// The error of an inbound text that is no submission.
#[derive(Clone, Copy, Debug, PartialEq, Eq, Structural)]
pub struct MalformedMessage;

impl MalformedMessage {
    /// The reason as it is reported to the sender.
    pub open spec fn reason_text() -> Seq<char> {
        "malformed"@
    }

    /// The reason as it is reported to the sender.
    pub fn reason(&self) -> (text: String)
        ensures
            text@ == MalformedMessage::reason_text(),
    {
        "malformed".to_owned()
    }
}

/// The words of a submission, in their fixed order.
pub open spec fn submit_fields(r: RecordView) -> Seq<Seq<char>> {
    seq![
        "SUBMIT"@,
        r.timestamp.wire_text(),
        r.band,
        r.mode,
        r.callsign,
        r.sent_report,
        r.sent_exchange,
        r.received_report,
        r.received_exchange,
        r.multiplier,
        decimal(r.score as nat),
    ]
}

/// The text of a message on the wire.
pub open spec fn message_text(m: MessageView) -> Seq<char> {
    match m {
        MessageView::Submit(r) => join(submit_fields(r), ' '),
        MessageView::Ack(sequence) => "ACK "@ + decimal(sequence),
        MessageView::Error(reason) => "ERROR "@ + reason,
    }
}

/// The score that a word writes: a run of digits, or a minus sign and a
/// run of digits, within the range of a 32-bit signed integer.
pub open spec fn parse_score(s: Seq<char>) -> Option<int> {
    if s.len() > 0 && s[0] == '-' {
        match number_up_to(s.subrange(1, s.len() as int), 2147483648) {
            Some(v) => Some(-(v as int)),
            None => None,
        }
    } else {
        match number_up_to(s, 2147483647) {
            Some(v) => Some(v as int),
            None => None,
        }
    }
}

/// The record that a submission asks for, before its fields are
/// validated. `None` where the text is no submission: not eleven words,
/// another first word, or a timestamp or score that cannot be read.
pub open spec fn parse_submission(raw: Seq<char>) -> Option<RecordView> {
    let words = split(raw, ' ');
    if words.len() == 11 && words[0] == "SUBMIT"@ {
        match (parse_valid_moment(words[1]), parse_score(words[10])) {
            (Some(moment), Some(score)) => Some(
                RecordView {
                    timestamp: moment,
                    band: words[2],
                    mode: words[3],
                    callsign: words[4],
                    sent_report: words[5],
                    sent_exchange: words[6],
                    received_report: words[7],
                    received_exchange: words[8],
                    multiplier: words[9],
                    score: score,
                },
            ),
            _ => None,
        }
    } else {
        None
    }
}

/// What the hub makes of an inbound text: the submission it carries, if
/// the text is one and its record is valid; else the error that goes back
/// to the sender.
pub open spec fn submission_outcome(raw: Seq<char>) -> MessageView {
    match parse_submission(raw) {
        None => MessageView::Error(MalformedMessage::reason_text()),
        Some(asked) => if asked.fields_valid() {
            MessageView::Submit(asked)
        } else {
            MessageView::Error(reason_text(asked.violations()))
        },
    }
}

/// A submission whose record has a violated field is refused with the
/// list of its violations, and is never accepted.
pub proof fn invalid_submission_is_refused(raw: Seq<char>)
    requires
        parse_submission(raw) matches Some(asked) && asked.violations().len() > 0,
    ensures
        submission_outcome(raw) == MessageView::Error(
            reason_text(parse_submission(raw).unwrap().violations()),
        ),
{
}

/// A submission that was written for a valid record with plain fields is
/// accepted as that record.
pub proof fn submission_round_trip(r: RecordView)
    requires
        r.valid(),
        plain_record(r),
    ensures
        submission_outcome(message_text(MessageView::Submit(r))) == MessageView::Submit(r),
{
    let words = submit_fields(r);
    let score = decimal(r.score as nat);
    reveal_strlit("SUBMIT");
    lemma_wire_round_trip(r.timestamp);
    lemma_decimal_round_trip(r.score as nat);
    lemma_digits_plain(score);
    assert forall|i: int| 0 <= i < words.len() implies !(#[trigger] words[i]).contains(' ') by {}
    lemma_split_join(words, ' ');
    assert(digit_value(score[0]) is Some);
}

/// Reads a score word.
fn read_score(word: &str) -> (score: Option<i32>)
    ensures
        match score {
            Some(v) => parse_score(word@) == Some(v as int),
            None => parse_score(word@) is None,
        },
{
    let chars = chars_of(word);
    if chars.len() > 0 && chars[0] == '-' {
        match parse_number(&chars, 1, chars.len(), 2147483648) {
            Some(v) => {
                let negated: i64 = -(v as i64);
                Some(negated as i32)
            },
            None => None,
        }
    } else {
        proof {
            assert(chars@.subrange(0, chars.len() as int) =~= chars@);
        }
        match parse_number(&chars, 0, chars.len(), 2147483647) {
            Some(v) => Some(v as i32),
            None => None,
        }
    }
}

/// Decides what to do with an inbound text. A submission whose record is
/// valid comes back as `Submit`, to be queued. Anything else comes back as
/// the `Error` for the sender: `malformed` for a text that is no
/// submission, the list of violated fields for a record that is not valid.
pub fn handle_submission(raw: &str) -> (reply: RelayMessage)
    ensures
        reply@ == submission_outcome(raw@),
{
    let words = split_fields(raw, ' ');
    proof {
        assert forall|i: int| 0 <= i < words.len() implies split(raw@, ' ')[i] == (
        #[trigger] words@[i])@ by {}
    }
    if words.len() != 11 {
        return RelayMessage::Error(MalformedMessage.reason());
    }
    let kind = "SUBMIT".to_owned();
    if words[0] != kind {
        return RelayMessage::Error(MalformedMessage.reason());
    }
    let stamp = Timestamp::parse(words[1].as_str());
    let score = read_score(words[10].as_str());
    match (stamp, score) {
        (Some(timestamp), Some(points)) => {
            let made = ContactRecord::new(
                timestamp,
                words[2].clone(),
                words[3].clone(),
                words[4].clone(),
                words[5].clone(),
                words[6].clone(),
                words[7].clone(),
                words[8].clone(),
                words[9].clone(),
                points,
            );
            match made {
                Ok(record) => RelayMessage::Submit(record),
                Err(error) => RelayMessage::Error(error.reason()),
            }
        },
        _ => RelayMessage::Error(MalformedMessage.reason()),
    }
}

/// Appends a separator and a word to a text that holds `words` so far.
fn push_word(text: &mut String, word: &str, Ghost(words): Ghost<Seq<Seq<char>>>)
    requires
        words.len() > 0,
        old(text)@ == join(words, ' '),
    ensures
        final(text)@ == join(words.push(word@), ' '),
{
    text.push(' ');
    text.append(word);
    proof {
        lemma_join_push(words, word@, ' ');
    }
}

/// Writes a message as its text on the wire.
pub fn encode_message(message: &RelayMessage) -> (text: String)
    ensures
        text@ == message_text(message@),
{
    match message {
        RelayMessage::Submit(record) => {
            let ghost r = record@;
            let mut text = "SUBMIT".to_owned();
            let ghost w0 = seq!["SUBMIT"@];
            let mut stamp = String::new();
            record.timestamp().push_wire_text(&mut stamp);
            push_word(&mut text, stamp.as_str(), Ghost(w0));
            let ghost w1 = w0.push(r.timestamp.wire_text());
            push_word(&mut text, record.band(), Ghost(w1));
            let ghost w2 = w1.push(r.band);
            push_word(&mut text, record.mode(), Ghost(w2));
            let ghost w3 = w2.push(r.mode);
            push_word(&mut text, record.callsign(), Ghost(w3));
            let ghost w4 = w3.push(r.callsign);
            push_word(&mut text, record.sent_report(), Ghost(w4));
            let ghost w5 = w4.push(r.sent_report);
            push_word(&mut text, record.sent_exchange(), Ghost(w5));
            let ghost w6 = w5.push(r.sent_exchange);
            push_word(&mut text, record.received_report(), Ghost(w6));
            let ghost w7 = w6.push(r.received_report);
            push_word(&mut text, record.received_exchange(), Ghost(w7));
            let ghost w8 = w7.push(r.received_exchange);
            push_word(&mut text, record.multiplier(), Ghost(w8));
            let ghost w9 = w8.push(r.multiplier);
            let mut score = String::new();
            push_decimal(&mut score, record.score() as u64);
            push_word(&mut text, score.as_str(), Ghost(w9));
            assert(w9.push(decimal(r.score as nat)) =~= submit_fields(r));
            text
        },
        RelayMessage::Ack(sequence) => {
            let mut text = "ACK ".to_owned();
            push_decimal(&mut text, *sequence);
            text
        },
        RelayMessage::Error(reason) => {
            let mut text = "ERROR ".to_owned();
            text.append(reason.as_str());
            text
        },
    }
}

} // verus!
