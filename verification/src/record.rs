//! The contact record: one logged contact, validated when it is made and
//! never changed afterwards.

use crate::timestamp::{Moment, Timestamp};
use vstd::prelude::*;
use vstd::string::StringExecFns;

verus! {

/// The fields of a contact record that validation can find fault with, in
/// the order in which violations are listed.
#[derive(Clone, Copy, Debug, PartialEq, Eq, Structural)]
pub enum Field {
    Band,
    Mode,
    Callsign,
    SentReport,
    SentExchange,
    ReceivedReport,
    ReceivedExchange,
    Multiplier,
    Score,
}

impl Field {
    /// The name under which the field is reported.
    pub open spec fn name_text(self) -> Seq<char> {
        match self {
            Field::Band => "band"@,
            Field::Mode => "mode"@,
            Field::Callsign => "callsign"@,
            Field::SentReport => "sent_report"@,
            Field::SentExchange => "sent_exchange"@,
            Field::ReceivedReport => "received_report"@,
            Field::ReceivedExchange => "received_exchange"@,
            Field::Multiplier => "multiplier"@,
            Field::Score => "score"@,
        }
    }

    /// The name under which the field is reported.
    pub fn name(self) -> (name: &'static str)
        ensures
            name@ == self.name_text(),
    {
        match self {
            Field::Band => "band",
            Field::Mode => "mode",
            Field::Callsign => "callsign",
            Field::SentReport => "sent_report",
            Field::SentExchange => "sent_exchange",
            Field::ReceivedReport => "received_report",
            Field::ReceivedExchange => "received_exchange",
            Field::Multiplier => "multiplier",
            Field::Score => "score",
        }
    }
}

/// What a contact record holds, as mathematical values.
pub struct RecordView {
    pub timestamp: Moment,
    pub band: Seq<char>,
    pub mode: Seq<char>,
    pub callsign: Seq<char>,
    pub sent_report: Seq<char>,
    pub sent_exchange: Seq<char>,
    pub received_report: Seq<char>,
    pub received_exchange: Seq<char>,
    pub multiplier: Seq<char>,
    pub score: int,
}

/// `field`, if it is violated, as a list of at most one entry.
pub open spec fn flag(violated: bool, field: Field) -> Seq<Field> {
    if violated {
        seq![field]
    } else {
        Seq::empty()
    }
}

impl RecordView {
    /// Every violated field, each once, in the order of `Field`: a text
    /// field is violated when it is empty, the score when it is negative.
    pub open spec fn violations(self) -> Seq<Field> {
        flag(self.band.len() == 0, Field::Band) + flag(self.mode.len() == 0, Field::Mode) + flag(
            self.callsign.len() == 0,
            Field::Callsign,
        ) + flag(self.sent_report.len() == 0, Field::SentReport) + flag(
            self.sent_exchange.len() == 0,
            Field::SentExchange,
        ) + flag(self.received_report.len() == 0, Field::ReceivedReport) + flag(
            self.received_exchange.len() == 0,
            Field::ReceivedExchange,
        ) + flag(self.multiplier.len() == 0, Field::Multiplier) + flag(
            self.score < 0,
            Field::Score,
        )
    }

    /// No text field is empty and the score is not negative.
    pub open spec fn fields_valid(self) -> bool {
        &&& self.band.len() > 0
        &&& self.mode.len() > 0
        &&& self.callsign.len() > 0
        &&& self.sent_report.len() > 0
        &&& self.sent_exchange.len() > 0
        &&& self.received_report.len() > 0
        &&& self.received_exchange.len() > 0
        &&& self.multiplier.len() > 0
        &&& self.score >= 0
    }

    /// What every contact record satisfies.
    pub open spec fn valid(self) -> bool {
        &&& self.timestamp.valid()
        &&& self.fields_valid()
        &&& self.score <= i32::MAX
    }
}

/// What each record of a sequence holds.
pub open spec fn record_views(records: Seq<ContactRecord>) -> Seq<RecordView> {
    Seq::new(records.len(), |i: int| records[i]@)
}

/// The reason text of a rejected record: `invalid record:` and then, for
/// each violation, a space and the field's name.
pub open spec fn reason_text(violations: Seq<Field>) -> Seq<char>
    decreases violations.len(),
{
    if violations.len() == 0 {
        "invalid record:"@
    } else {
        reason_text(violations.drop_last()).push(' ') + violations.last().name_text()
    }
}

/// A record with an empty callsign is always refused: the callsign is
/// among its violations, whatever the other fields hold.
pub proof fn empty_callsign_is_refused(r: RecordView)
    requires
        r.callsign.len() == 0,
    ensures
        r.violations().contains(Field::Callsign),
        r.violations().len() > 0,
        !r.fields_valid(),
{
    let before = flag(r.band.len() == 0, Field::Band) + flag(r.mode.len() == 0, Field::Mode);
    assert(r.violations()[before.len() as int] == Field::Callsign);
}

/// A record with a negative score, such as -1, is always refused: the
/// score is among its violations, whatever the other fields hold.
pub proof fn negative_score_is_refused(r: RecordView)
    requires
        r.score < 0,
    ensures
        r.violations().contains(Field::Score),
        r.violations().len() > 0,
        !r.fields_valid(),
{
    let all = r.violations();
    assert(all[all.len() - 1] == Field::Score);
}

/// The error of a rejected record: every violated field, in the order of
/// `Field`.
#[derive(Debug, PartialEq, Eq)]
pub struct InvalidRecord {
    pub violations: Vec<Field>,
}

impl InvalidRecord {
    /// The reason as it is reported to a client.
    pub fn reason(&self) -> (text: String)
        ensures
            text@ == reason_text(self.violations@),
    {
        let mut text = "invalid record:".to_owned();
        let mut i: usize = 0;
        while i < self.violations.len()
            invariant
                i <= self.violations.len(),
                text@ == reason_text(self.violations@.take(i as int)),
            decreases self.violations.len() - i,
        {
            text.push(' ');
            text.append(self.violations[i].name());
            proof {
                let longer = self.violations@.take(i + 1);
                assert(longer.drop_last() =~= self.violations@.take(i as int));
            }
            i = i + 1;
        }
        proof {
            assert(self.violations@.take(i as int) =~= self.violations@);
        }
        text
    }
}

/// Adds `field` to the violations found so far, if it is violated.
fn note(violations: &mut Vec<Field>, violated: bool, field: Field)
    ensures
        final(violations)@ == old(violations)@ + flag(violated, field),
{
    if violated {
        violations.push(field);
    }
}

/// One logged contact.
#[derive(Debug, PartialEq, Eq)]
pub struct ContactRecord {
    timestamp: Timestamp,
    band: String,
    mode: String,
    callsign: String,
    sent_report: String,
    sent_exchange: String,
    received_report: String,
    received_exchange: String,
    multiplier: String,
    score: i32,
}

impl View for ContactRecord {
    type V = RecordView;

    closed spec fn view(&self) -> RecordView {
        RecordView {
            timestamp: self.timestamp@,
            band: self.band@,
            mode: self.mode@,
            callsign: self.callsign@,
            sent_report: self.sent_report@,
            sent_exchange: self.sent_exchange@,
            received_report: self.received_report@,
            received_exchange: self.received_exchange@,
            multiplier: self.multiplier@,
            score: self.score as int,
        }
    }
}

impl Clone for ContactRecord {
    fn clone(&self) -> (copy: Self)
        ensures
            copy@ == self@,
    {
        proof {
            use_type_invariant(self);
        }
        ContactRecord {
            timestamp: self.timestamp,
            band: self.band.clone(),
            mode: self.mode.clone(),
            callsign: self.callsign.clone(),
            sent_report: self.sent_report.clone(),
            sent_exchange: self.sent_exchange.clone(),
            received_report: self.received_report.clone(),
            received_exchange: self.received_exchange.clone(),
            multiplier: self.multiplier.clone(),
            score: self.score,
        }
    }
}

impl ContactRecord {
    #[verifier::type_invariant]
    pub open spec fn well_formed(&self) -> bool {
        self@.valid()
    }

    /// Makes a record, or reports every field that is violated: a text
    /// field that is empty, a score that is negative.
    pub fn new(
        timestamp: Timestamp,
        band: String,
        mode: String,
        callsign: String,
        sent_report: String,
        sent_exchange: String,
        received_report: String,
        received_exchange: String,
        multiplier: String,
        score: i32,
    ) -> (made: Result<ContactRecord, InvalidRecord>)
        ensures
            ({
                let asked = RecordView {
                    timestamp: timestamp@,
                    band: band@,
                    mode: mode@,
                    callsign: callsign@,
                    sent_report: sent_report@,
                    sent_exchange: sent_exchange@,
                    received_report: received_report@,
                    received_exchange: received_exchange@,
                    multiplier: multiplier@,
                    score: score as int,
                };
                match made {
                    Ok(record) => record@ == asked && asked.violations().len() == 0
                        && asked.valid(),
                    Err(error) => error.violations@ == asked.violations()
                        && error.violations@.len() > 0,
                }
            }),
    {
        let ghost asked = RecordView {
            timestamp: timestamp@,
            band: band@,
            mode: mode@,
            callsign: callsign@,
            sent_report: sent_report@,
            sent_exchange: sent_exchange@,
            received_report: received_report@,
            received_exchange: received_exchange@,
            multiplier: multiplier@,
            score: score as int,
        };
        let mut violations: Vec<Field> = Vec::new();
        note(&mut violations, band.as_str().is_empty(), Field::Band);
        note(&mut violations, mode.as_str().is_empty(), Field::Mode);
        note(&mut violations, callsign.as_str().is_empty(), Field::Callsign);
        note(&mut violations, sent_report.as_str().is_empty(), Field::SentReport);
        note(&mut violations, sent_exchange.as_str().is_empty(), Field::SentExchange);
        note(&mut violations, received_report.as_str().is_empty(), Field::ReceivedReport);
        note(&mut violations, received_exchange.as_str().is_empty(), Field::ReceivedExchange);
        note(&mut violations, multiplier.as_str().is_empty(), Field::Multiplier);
        note(&mut violations, score < 0, Field::Score);
        proof {
            use_type_invariant(&timestamp);
        }
        if violations.len() > 0 {
            Err(InvalidRecord { violations })
        } else {
            Ok(
                ContactRecord {
                    timestamp,
                    band,
                    mode,
                    callsign,
                    sent_report,
                    sent_exchange,
                    received_report,
                    received_exchange,
                    multiplier,
                    score,
                },
            )
        }
    }

    /// When the contact was made.
    pub fn timestamp(&self) -> (timestamp: Timestamp)
        ensures
            timestamp@ == self@.timestamp,
    {
        self.timestamp
    }

    /// The band designator.
    pub fn band(&self) -> (band: &str)
        ensures
            band@ == self@.band,
    {
        self.band.as_str()
    }

    /// The mode token.
    pub fn mode(&self) -> (mode: &str)
        ensures
            mode@ == self@.mode,
    {
        self.mode.as_str()
    }

    /// The station that was worked.
    pub fn callsign(&self) -> (callsign: &str)
        ensures
            callsign@ == self@.callsign,
    {
        self.callsign.as_str()
    }

    /// The signal report that was sent.
    pub fn sent_report(&self) -> (report: &str)
        ensures
            report@ == self@.sent_report,
    {
        self.sent_report.as_str()
    }

    /// The exchange that was sent.
    pub fn sent_exchange(&self) -> (exchange: &str)
        ensures
            exchange@ == self@.sent_exchange,
    {
        self.sent_exchange.as_str()
    }

    /// The signal report that was received.
    pub fn received_report(&self) -> (report: &str)
        ensures
            report@ == self@.received_report,
    {
        self.received_report.as_str()
    }

    /// The exchange that was received.
    pub fn received_exchange(&self) -> (exchange: &str)
        ensures
            exchange@ == self@.received_exchange,
    {
        self.received_exchange.as_str()
    }

    /// The multiplier token.
    pub fn multiplier(&self) -> (multiplier: &str)
        ensures
            multiplier@ == self@.multiplier,
    {
        self.multiplier.as_str()
    }

    /// The points that the contact is worth.
    pub fn score(&self) -> (score: i32)
        ensures
            score == self@.score,
            score >= 0,
    {
        proof {
            use_type_invariant(self);
        }
        self.score
    }
}

} // verus!
