//! The logsheet export: one bracket of text per call, made of a header
//! line, one line per contact record in the order given, a blank line and
//! the closing line.

use crate::record::{record_views, ContactRecord, RecordView};
use crate::text::{
    all_digits, decimal, digit_value, join, lemma_decimal_round_trip, lemma_join_push,
    lemma_padded_shape, lemma_split_join, padded, push_decimal, split, split_fields, views,
};
use crate::timestamp::Moment;
use vstd::prelude::*;
use vstd::string::StringExecFns;

verus! {

/// The error of a sink that could not be created or written.
#[derive(Clone, Copy, Debug, PartialEq, Eq, Structural)]
pub struct SinkUnavailable;

impl SinkUnavailable {
    /// The reason as it is reported to the submitter.
    pub open spec fn reason_text() -> Seq<char> {
        "sink unavailable"@
    }

    /// The reason as it is reported to the submitter.
    pub fn reason(&self) -> (text: String)
        ensures
            text@ == SinkUnavailable::reason_text(),
    {
        "sink unavailable".to_owned()
    }
}

/// The text fields of a record's line, in their fixed order: date, time,
/// band, mode, callsign, sent report, sent exchange, received report,
/// received exchange, multiplier, score.
pub open spec fn line_fields(r: RecordView) -> Seq<Seq<char>> {
    seq![
        r.timestamp.date_text(),
        r.timestamp.time_text(),
        r.band,
        r.mode,
        r.callsign,
        r.sent_report,
        r.sent_exchange,
        r.received_report,
        r.received_exchange,
        r.multiplier,
        decimal(r.score as nat),
    ]
}

/// A record's line, without its line break: the fields with one space
/// between neighbours.
pub open spec fn line_text(r: RecordView) -> Seq<char> {
    join(line_fields(r), ' ')
}

/// The token of the header line.
pub open spec fn header_token() -> Seq<char> {
    "<LOGSHEET TYPE=ylog>"@
}

/// The token of the closing line.
pub open spec fn trailer_token() -> Seq<char> {
    "</LOGSHEET>"@
}

/// The lines of the records, each ended by a line break.
pub open spec fn body_text(records: Seq<RecordView>) -> Seq<char>
    decreases records.len(),
{
    if records.len() == 0 {
        Seq::empty()
    } else {
        body_text(records.drop_last()) + line_text(records.last()).push('\n')
    }
}

/// One bracket: the header line, the records' lines, a blank line and the
/// closing line.
pub open spec fn logsheet_text(records: Seq<RecordView>) -> Seq<char> {
    header_token().push('\n') + body_text(records) + seq!['\n'] + trailer_token().push('\n')
}

/// A text that holds neither a space nor a line break, so that it stays
/// one field of one line.
pub open spec fn plain(s: Seq<char>) -> bool {
    !s.contains(' ') && !s.contains('\n')
}

/// Every text field of the record is plain.
pub open spec fn plain_record(r: RecordView) -> bool {
    &&& plain(r.band)
    &&& plain(r.mode)
    &&& plain(r.callsign)
    &&& plain(r.sent_report)
    &&& plain(r.sent_exchange)
    &&& plain(r.received_report)
    &&& plain(r.received_exchange)
    &&& plain(r.multiplier)
}

/// The lines of a bracket, as a reader finds them between line breaks:
/// the header token, the records' lines, an empty line, the closing token,
/// and the empty text after the last line break.
pub open spec fn bracket_lines(records: Seq<RecordView>) -> Seq<Seq<char>> {
    seq![header_token()] + Seq::new(records.len(), |i: int| line_text(records[i])) + seq![
        Seq::<char>::empty(),
        trailer_token(),
        Seq::<char>::empty(),
    ]
}

/// Reads a bracket back: the fields of each record line, in order. The
/// text must be one bracket, and each record line must have eleven fields.
pub open spec fn parse_logsheet(text: Seq<char>) -> Option<Seq<Seq<Seq<char>>>> {
    let lines = split(text, '\n');
    let n = lines.len() as int;
    if n >= 4 && lines[0] == header_token() && lines[n - 3].len() == 0 && lines[n - 2]
        == trailer_token() && lines[n - 1].len() == 0 && (forall|i: int|
        1 <= i < n - 3 ==> (#[trigger] split(lines[i], ' ')).len() == 11) {
        Some(Seq::new((n - 4) as nat, |i: int| split(lines[i + 1], ' ')))
    } else {
        None
    }
}

/// The texts that the rows of a parsed logsheet hold.
pub open spec fn row_views(rows: Seq<Vec<String>>) -> Seq<Seq<Seq<char>>> {
    Seq::new(rows.len(), |i: int| views(rows[i]@))
}

/// A run of digits is plain.
pub proof fn lemma_digits_plain(s: Seq<char>)
    requires
        all_digits(s),
    ensures
        plain(s),
{
    if s.contains(' ') {
        let i = choose|i: int| 0 <= i < s.len() && s[i] == ' ';
        assert(digit_value(s[i]) is Some);
    }
    if s.contains('\n') {
        let i = choose|i: int| 0 <= i < s.len() && s[i] == '\n';
        assert(digit_value(s[i]) is Some);
    }
}

/// The date and the time of day are plain, whatever the moment.
pub proof fn lemma_moment_plain(m: Moment)
    ensures
        plain(m.date_text()),
        plain(m.time_text()),
{
    let year = padded(m.year as nat, 4);
    let month = padded(m.month as nat, 2);
    let day = padded(m.day as nat, 2);
    let hour = padded(m.hour as nat, 2);
    let minute = padded(m.minute as nat, 2);
    lemma_padded_shape(m.year as nat, 4);
    lemma_padded_shape(m.month as nat, 2);
    lemma_padded_shape(m.day as nat, 2);
    lemma_padded_shape(m.hour as nat, 2);
    lemma_padded_shape(m.minute as nat, 2);
    lemma_digits_plain(year);
    lemma_digits_plain(month);
    lemma_digits_plain(day);
    lemma_digits_plain(hour);
    lemma_digits_plain(minute);
    let date = m.date_text();
    assert forall|i: int| 0 <= i < date.len() implies date[i] != ' ' && date[i] != '\n' by {}
    let time = m.time_text();
    assert forall|i: int| 0 <= i < time.len() implies time[i] != ' ' && time[i] != '\n' by {}
}

/// A joined text lacks every character that the fields and the separator
/// lack.
pub proof fn lemma_join_lacks(fields: Seq<Seq<char>>, sep: char, c: char)
    requires
        sep != c,
        forall|i: int| 0 <= i < fields.len() ==> !(#[trigger] fields[i]).contains(c),
    ensures
        !join(fields, sep).contains(c),
    decreases fields.len(),
{
    if fields.len() > 1 {
        let front = fields.drop_last();
        assert forall|i: int| 0 <= i < front.len() implies !(#[trigger] front[i]).contains(c) by {}
        lemma_join_lacks(front, sep, c);
    }
}

/// A valid record with plain fields writes a line that holds no line
/// break and that splits at its spaces into exactly the record's fields.
pub proof fn lemma_line_round_trip(r: RecordView)
    requires
        r.valid(),
        plain_record(r),
    ensures
        split(line_text(r), ' ') == line_fields(r),
        !line_text(r).contains('\n'),
{
    let fields = line_fields(r);
    lemma_moment_plain(r.timestamp);
    lemma_decimal_round_trip(r.score as nat);
    lemma_digits_plain(decimal(r.score as nat));
    assert forall|i: int| 0 <= i < fields.len() implies plain(#[trigger] fields[i]) by {}
    lemma_split_join(fields, ' ');
    lemma_join_lacks(fields, ' ', '\n');
}

/// The header token and the records' lines, as lines of a bracket.
pub open spec fn leading_lines(records: Seq<RecordView>) -> Seq<Seq<char>> {
    seq![header_token()] + Seq::new(records.len(), |i: int| line_text(records[i]))
}

/// The header line and the body are the leading lines, each ended by a
/// line break.
pub proof fn lemma_leading_lines(records: Seq<RecordView>)
    ensures
        join(leading_lines(records), '\n').push('\n') == header_token().push('\n') + body_text(
            records,
        ),
    decreases records.len(),
{
    if records.len() > 0 {
        let front = records.drop_last();
        lemma_leading_lines(front);
        assert(leading_lines(records) =~= leading_lines(front).push(line_text(records.last())));
        lemma_join_push(leading_lines(front), line_text(records.last()), '\n');
        assert(join(leading_lines(records), '\n').push('\n') =~= header_token().push('\n')
            + body_text(records));
    }
}

/// A bracket is its lines with a line break between neighbours.
pub proof fn lemma_bracket_lines(records: Seq<RecordView>)
    ensures
        logsheet_text(records) == join(bracket_lines(records), '\n'),
{
    let lead = leading_lines(records);
    let empty = Seq::<char>::empty();
    lemma_leading_lines(records);
    lemma_join_push(lead, empty, '\n');
    lemma_join_push(lead.push(empty), trailer_token(), '\n');
    lemma_join_push(lead.push(empty).push(trailer_token()), empty, '\n');
    assert(bracket_lines(records) =~= lead.push(empty).push(trailer_token()).push(empty));
}

/// Reading back what was written recovers the fields. For all valid
/// records whose text fields are plain, the bracket written for them reads
/// back as one row per record, in order, each holding the record's eleven
/// fields character for character.
pub proof fn logsheet_round_trip(records: Seq<RecordView>)
    requires
        forall|i: int|
            0 <= i < records.len() ==> (#[trigger] records[i]).valid() && plain_record(records[i]),
    ensures
        parse_logsheet(logsheet_text(records)) == Some(
            Seq::new(records.len(), |i: int| line_fields(records[i])),
        ),
{
    let lines = bracket_lines(records);
    let count = records.len() as int;
    lemma_bracket_lines(records);
    reveal_strlit("<LOGSHEET TYPE=ylog>");
    reveal_strlit("</LOGSHEET>");
    assert forall|i: int| 0 <= i < lines.len() implies !(#[trigger] lines[i]).contains('\n') by {
        if 1 <= i <= count {
            lemma_line_round_trip(records[i - 1]);
        }
    }
    lemma_split_join(lines, '\n');
    assert forall|i: int| 1 <= i < lines.len() - 3 implies (#[trigger] split(lines[i], ' '))
        == line_fields(records[i - 1]) by {
        lemma_line_round_trip(records[i - 1]);
    }
    assert(Seq::new((lines.len() - 4) as nat, |i: int| split(lines[i + 1], ' ')) =~= Seq::new(
        records.len(),
        |i: int| line_fields(records[i]),
    ));
}

/// Appends a separator and a field to a line that holds `fields` so far.
fn push_field(line: &mut String, field: &str, Ghost(fields): Ghost<Seq<Seq<char>>>)
    requires
        fields.len() > 0,
        old(line)@ == join(fields, ' '),
    ensures
        final(line)@ == join(fields.push(field@), ' '),
{
    line.push(' ');
    line.append(field);
    proof {
        lemma_join_push(fields, field@, ' ');
    }
}

/// Renders one record as its logsheet line, without the line break.
pub fn format_qso(record: &ContactRecord) -> (line: String)
    ensures
        line@ == line_text(record@),
{
    let stamp = record.timestamp();
    let mut line = stamp.date_text();
    let ghost r = record@;
    let ghost f0 = seq![r.timestamp.date_text()];
    push_field(&mut line, stamp.time_text().as_str(), Ghost(f0));
    let ghost f1 = f0.push(r.timestamp.time_text());
    push_field(&mut line, record.band(), Ghost(f1));
    let ghost f2 = f1.push(r.band);
    push_field(&mut line, record.mode(), Ghost(f2));
    let ghost f3 = f2.push(r.mode);
    push_field(&mut line, record.callsign(), Ghost(f3));
    let ghost f4 = f3.push(r.callsign);
    push_field(&mut line, record.sent_report(), Ghost(f4));
    let ghost f5 = f4.push(r.sent_report);
    push_field(&mut line, record.sent_exchange(), Ghost(f5));
    let ghost f6 = f5.push(r.sent_exchange);
    push_field(&mut line, record.received_report(), Ghost(f6));
    let ghost f7 = f6.push(r.received_report);
    push_field(&mut line, record.received_exchange(), Ghost(f7));
    let ghost f8 = f7.push(r.received_exchange);
    push_field(&mut line, record.multiplier(), Ghost(f8));
    let ghost f9 = f8.push(r.multiplier);
    let mut score = String::new();
    push_decimal(&mut score, record.score() as u64);
    push_field(&mut line, score.as_str(), Ghost(f9));
    assert(f9.push(decimal(r.score as nat)) =~= line_fields(r));
    line
}

/// Renders one bracket for the records, in the order given.
pub fn encode_logsheet(records: &Vec<ContactRecord>) -> (text: String)
    ensures
        text@ == logsheet_text(record_views(records@)),
{
    let ghost views = record_views(records@);
    let mut text = "<LOGSHEET TYPE=ylog>".to_owned();
    text.push('\n');
    let ghost head = text@;
    let mut i: usize = 0;
    while i < records.len()
        invariant
            i <= records.len(),
            views == record_views(records@),
            head == header_token().push('\n'),
            text@ == head + body_text(views.take(i as int)),
        decreases records.len() - i,
    {
        let line = format_qso(&records[i]);
        text.append(line.as_str());
        text.push('\n');
        proof {
            let longer = views.take(i + 1);
            assert(longer.drop_last() =~= views.take(i as int));
        }
        i = i + 1;
    }
    proof {
        assert(views.take(i as int) =~= views);
    }
    text.push('\n');
    text.append("</LOGSHEET>");
    text.push('\n');
    text
}

/// Reads one bracket back into the fields of its record lines.
pub fn read_logsheet(text: &str) -> (rows: Option<Vec<Vec<String>>>)
    ensures
        match rows {
            Some(found) => parse_logsheet(text@) == Some(row_views(found@)),
            None => parse_logsheet(text@) is None,
        },
{
    let lines = split_fields(text, '\n');
    let n = lines.len();
    let ghost texts = split(text@, '\n');
    if n < 4 {
        return None;
    }
    let header = "<LOGSHEET TYPE=ylog>".to_owned();
    let trailer = "</LOGSHEET>".to_owned();
    if lines[0] != header || !lines[n - 3].as_str().is_empty() || lines[n - 2] != trailer
        || !lines[n - 1].as_str().is_empty() {
        return None;
    }
    let mut rows: Vec<Vec<String>> = Vec::new();
    let mut i: usize = 1;
    while i < n - 3
        invariant
            4 <= n == lines.len(),
            1 <= i <= n - 3,
            texts == split(text@, '\n'),
            texts == views(lines@),
            rows.len() == i - 1,
            forall|k: int| 0 <= k < rows.len() ==> views((#[trigger] rows@[k])@) == split(
                texts[k + 1],
                ' ',
            ),
            forall|k: int| 1 <= k < i ==> (#[trigger] split(texts[k], ' ')).len() == 11,
        decreases n - i,
    {
        let fields = split_fields(lines[i].as_str(), ' ');
        proof {
            assert(texts[i as int] == lines@[i as int]@);
        }
        if fields.len() != 11 {
            return None;
        }
        rows.push(fields);
        i = i + 1;
    }
    Some(rows)
}

} // verus!
