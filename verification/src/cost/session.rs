//! Reading the usage of one session log: one JSON message per line, of
//! which the assistant's replies carry a model and token counts.

use chrono::Datelike;
use vstd::prelude::*;

use super::{is_grouping, merge_records, records_view, CostRecord, RecordView, Tally};

verus! {

/// Token counts of one reply.
pub struct Usage {
    pub input_tokens: u64,
    pub output_tokens: u64,
    pub cache_read_input_tokens: u64,
    pub cache_creation_input_tokens: u64,
}

/// The `message` part of a log line.
pub struct MessageContent {
    pub model: Option<String>,
    pub usage: Option<Usage>,
}

/// One message of a session log.
pub struct SessionMessage {
    /// The `type` field: `assistant` for the replies that cost tokens.
    pub msg_type: String,
    pub message: Option<MessageContent>,
    /// RFC 3339 time of the message.
    pub timestamp: Option<String>,
}

/// One line of a session log, as read.
pub enum SessionLine {
    /// A line of whitespace only.
    Blank,
    /// A line that is not a message.
    Malformed,
    /// A message.
    Message(SessionMessage),
}

/// What reading one session log gives.
pub struct SessionParseResult {
    /// Usage grouped by day and model.
    pub records: Vec<CostRecord>,
    /// Lines that are not blank.
    pub total_lines: usize,
    /// Lines that are not blank and not a message.
    pub skipped_lines: usize,
}

/// The UTC day, counted from 1 January of year 1 as day 1, of an RFC 3339
/// time stamp; none when `ts` is not one.
pub uninterp spec fn rfc3339_utc_day(ts: Seq<char>) -> Option<i32>;

/// Trusted: calls chrono's `DateTime::parse_from_rfc3339`, converts the
/// time to UTC with `with_timezone(&Utc)` and takes the day number with
/// `date_naive().num_days_from_ce()`; a parse error gives none. The result
/// is named `rfc3339_utc_day` of the text; what it is on given text is not
/// stated.
#[verifier::external_body]
fn parse_rfc3339_day(ts: &str) -> (r: Option<i32>)
    ensures
        r == rfc3339_utc_day(ts@),
{
    match chrono::DateTime::parse_from_rfc3339(ts) {
        Ok(dt) => Some(dt.with_timezone(&chrono::Utc).date_naive().num_days_from_ce()),
        Err(_) => None,
    }
}

/// The day a message is booked on: the day of its time stamp when that
/// parses, else `fallback_day` (the day the log file was last written).
pub open spec fn message_day(m: SessionMessage, fallback_day: i32) -> i32 {
    match m.timestamp {
        Some(ts) => match rfc3339_utc_day(ts@) {
            Some(d) => d,
            None => fallback_day,
        },
        None => fallback_day,
    }
}

/// The usage that a message on day `day` records: one request with its
/// token counts, for its model (`unknown` when it names none), when it is
/// an assistant reply with a usage part.
pub open spec fn message_record(m: SessionMessage, day: i32) -> Option<RecordView> {
    if m.msg_type@ != "assistant"@ {
        None
    } else {
        match m.message {
            None => None,
            Some(content) => match content.usage {
                None => None,
                Some(u) => Some(
                    RecordView {
                        date: day,
                        model: match content.model {
                            Some(name) => name@,
                            None => "unknown"@,
                        },
                        usage: Tally {
                            requests: 1,
                            input: u.input_tokens as int,
                            output: u.output_tokens as int,
                            cache_read: u.cache_read_input_tokens as int,
                            cache_creation: u.cache_creation_input_tokens as int,
                        },
                    },
                ),
            },
        }
    }
}

/// The usage of each message line of `lines`, in order.
pub open spec fn line_records(lines: Seq<SessionLine>, fallback_day: i32) -> Seq<RecordView>
    decreases lines.len(),
{
    if lines.len() == 0 {
        Seq::<RecordView>::empty()
    } else {
        let prev = line_records(lines.drop_last(), fallback_day);
        match lines.last() {
            SessionLine::Message(m) => match message_record(m, message_day(m, fallback_day)) {
                Some(r) => prev.push(r),
                None => prev,
            },
            _ => prev,
        }
    }
}

/// How many lines are not blank.
pub open spec fn count_nonblank(lines: Seq<SessionLine>) -> nat
    decreases lines.len(),
{
    if lines.len() == 0 {
        0
    } else {
        count_nonblank(lines.drop_last()) + if lines.last() is Blank {
            0nat
        } else {
            1nat
        }
    }
}

/// How many lines are malformed.
pub open spec fn count_malformed(lines: Seq<SessionLine>) -> nat
    decreases lines.len(),
{
    if lines.len() == 0 {
        0
    } else {
        count_malformed(lines.drop_last()) + if lines.last() is Malformed {
            1nat
        } else {
            0nat
        }
    }
}

/// Malformed lines are among the lines that are not blank.
pub proof fn lemma_skipped_within_total(lines: Seq<SessionLine>)
    ensures
        count_malformed(lines) <= count_nonblank(lines),
    decreases lines.len(),
{
    if lines.len() > 0 {
        lemma_skipped_within_total(lines.drop_last());
    }
}

/// The day of a message's time stamp, when it has one that parses.
pub fn timestamp_day(m: &SessionMessage) -> (r: Option<i32>)
    ensures
        r == match m.timestamp {
            Some(ts) => rfc3339_utc_day(ts@),
            None => None,
        },
{
    match &m.timestamp {
        Some(ts) => parse_rfc3339_day(ts.as_str()),
        None => None,
    }
}

/// The usage that a message records, given the day of its time stamp
/// (`ts_day`, none when it has none or it does not parse) and the day to
/// book it on otherwise.
pub fn usage_record(m: &SessionMessage, ts_day: Option<i32>, fallback_day: i32) -> (r: Option<CostRecord>)
    ensures
        match message_record(
            *m,
            match ts_day {
                Some(d) => d,
                None => fallback_day,
            },
        ) {
            Some(v) => r is Some && r->0@ == v,
            None => r is None,
        },
{
    if !crate::text::str_eq(m.msg_type.as_str(), "assistant") {
        return None;
    }
    let content = match &m.message {
        Some(c) => c,
        None => return None,
    };
    let u = match &content.usage {
        Some(u) => u,
        None => return None,
    };
    let model = match &content.model {
        Some(name) => name.clone(),
        None => "unknown".to_owned(),
    };
    let date = match ts_day {
        Some(d) => d,
        None => fallback_day,
    };
    Some(
        CostRecord {
            date,
            model,
            requests: 1,
            input_tokens: u.input_tokens,
            output_tokens: u.output_tokens,
            cache_read_tokens: u.cache_read_input_tokens,
            cache_creation_tokens: u.cache_creation_input_tokens,
        },
    )
}

/// Reads the usage of a session log given line by line: counts the lines
/// that are not blank and those that are malformed, and groups the usage
/// of the assistant replies by day and model. A message without a usable
/// time stamp is booked on `fallback_day`.
pub fn parse_session(lines: &Vec<SessionLine>, fallback_day: i32) -> (r: SessionParseResult)
    ensures
        r.total_lines == count_nonblank(lines@),
        r.skipped_lines == count_malformed(lines@),
        is_grouping(line_records(lines@, fallback_day), records_view(r.records@)),
{
    let mut per_message: Vec<CostRecord> = Vec::new();
    let mut total: usize = 0;
    let mut skipped: usize = 0;
    let mut i: usize = 0;
    assert(lines@.take(0) =~= Seq::<SessionLine>::empty());
    while i < lines.len()
        invariant
            i <= lines.len(),
            total == count_nonblank(lines@.take(i as int)),
            skipped == count_malformed(lines@.take(i as int)),
            total <= i,
            skipped <= i,
            records_view(per_message@) == line_records(lines@.take(i as int), fallback_day),
        decreases lines.len() - i,
    {
        let ghost t = lines@.take(i + 1);
        assert(t.drop_last() =~= lines@.take(i as int));
        assert(t.last() == lines@[i as int]);
        match &lines[i] {
            SessionLine::Blank => {},
            SessionLine::Malformed => {
                total = total + 1;
                skipped = skipped + 1;
            },
            SessionLine::Message(m) => {
                total = total + 1;
                let day = timestamp_day(m);
                let ghost prev = records_view(per_message@);
                match usage_record(m, day, fallback_day) {
                    Some(rec) => {
                        per_message.push(rec);
                        assert(records_view(per_message@) =~= prev.push(rec@));
                    },
                    None => {},
                }
            },
        }
        i = i + 1;
    }
    assert(lines@.take(lines.len() as int) =~= lines@);
    let records = merge_records(&per_message);
    SessionParseResult { records, total_lines: total, skipped_lines: skipped }
}

} // verus!
