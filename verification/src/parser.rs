//! Parses Skylark's `skylark-model-usage-v1` export.
//!
//! Skylark is a privacy-first VS Code extension backed by a native daemon that
//! routes inference across four backend classes: cloud escalation, the vLLM
//! Semantic Router, a directly dialled vLLM server, and a Hailo Neural Processing
//! Unit lane. The daemon meters every call it routes and appends the record to a
//! rotating JSON Lines log. That log is the export.
//!
//! Four properties of that contract shape this parser, and each is proved as a law in
//! [`crate::laws`]:
//!
//! - **The dedup key is the producer's.** Every record carries
//!   `skylark:<trace_id>:<sequence>`, and it is kept verbatim; a record whose stated
//!   key is not the derived one is refused.
//! - **Only an exact count may carry a figure.** A record whose counts are
//!   estimated or absent may carry a recorded zero and nothing else.
//! - **A null cost is not a zero cost.** A record that could not be priced has no
//!   cost and no pricing version, with its tokens intact.
//! - **A gap marker is data.** It says how many rows were lost before the log could
//!   see them.
//!
//! One unreadable line costs that line and nothing else.

use crate::call;
use crate::call::{InteractionMode, ParsedCall, Speed, TimestampQuality, TokenQuality};
use crate::config;
use crate::cost;
use crate::cost::{read_cost, CostReading};
use crate::json;
use crate::json::{parse_json, Json};
use crate::text;
use crate::text::{chars_of, lines_of, push_decimal, same_text, string_of, trim_chars};
use vstd::prelude::*;

verus! {

/// FNV-1a 64 over the conformance fixture, an export that the producer publishes and
/// that exercises every field of the contract. Producer and consumer pin the same
/// digest over their copies, so a byte that moves in either copy is noticed.
pub const CONFORMANCE_FIXTURE_DIGEST: &'static str = "23a4ea93be256b0d";

/// One validated `usage` line, in the export's own vocabulary. It has no `==`: one cost
/// can be written in many ways, and two costs are equal as doubles.
#[derive(Clone, Debug)]
pub struct SkylarkRecord {
    pub dedup_key: String,
    pub backend: String,
    /// The model identifier the request named. For an auto-routed call this is the
    /// alias, such as `auto`.
    pub model: String,
    /// The model the response named as having served the call. `None` when the line
    /// predates the field or no response named a model.
    pub served_model: Option<String>,
    pub prompt_tokens: Option<u64>,
    pub completion_tokens: Option<u64>,
    pub token_quality: TokenQuality,
    pub latency_ms: u64,
    /// The text of the figure, or `None` when Skylark could not honestly
    /// price the call. Distinct from a zero, which is a recorded rate.
    pub cost_usd: Option<String>,
    pub pricing_version: Option<String>,
    /// Seconds since the start of 1970, in UTC; `None` when no calendar date is that
    /// far away.
    pub timestamp: Option<i64>,
    /// The governed run this call belongs to, or the emitting site when the call was
    /// not scoped to a run.
    pub session_id: String,
}

/// What a [`SkylarkRecord`] says.
pub ghost struct RecordView {
    pub dedup_key: Seq<char>,
    pub backend: Seq<char>,
    pub model: Seq<char>,
    pub served_model: Option<Seq<char>>,
    pub prompt_tokens: Option<u64>,
    pub completion_tokens: Option<u64>,
    pub token_quality: TokenQuality,
    pub latency_ms: u64,
    pub cost_usd: Option<Seq<char>>,
    pub pricing_version: Option<Seq<char>>,
    pub timestamp: Option<i64>,
    pub session_id: Seq<char>,
}

impl View for SkylarkRecord {
    type V = RecordView;

    open spec fn view(&self) -> RecordView {
        RecordView {
            dedup_key: self.dedup_key@,
            backend: self.backend@,
            model: self.model@,
            served_model: call::optional_text(self.served_model),
            prompt_tokens: self.prompt_tokens,
            completion_tokens: self.completion_tokens,
            token_quality: self.token_quality,
            latency_ms: self.latency_ms,
            cost_usd: call::optional_text(self.cost_usd),
            pricing_version: call::optional_text(self.pricing_version),
            timestamp: self.timestamp,
            session_id: self.session_id@,
        }
    }
}

/// The identity of the call with that trace and sequence number.
pub open spec fn key_of(trace_id: Seq<char>, sequence: u64) -> Seq<char> {
    "skylark:"@ + trace_id + ":"@ + text::decimal(sequence as nat)
}

/// The record's identity, derived exactly as the producer derives it.
pub fn dedup_key(trace_id: &str, sequence: u64) -> (key: String)
    ensures
        key@ == key_of(trace_id@, sequence),
{
    let mut key = String::new();
    key.append("skylark:");
    key.append(trace_id);
    key.append(":");
    push_decimal(&mut key, sequence);
    assert(key@ == key_of(trace_id@, sequence));
    key
}

/// The token quality that the export calls `name`. What it calls `absent`, no
/// complete accounting by the backend, is `Unknown` here: `Estimated` would claim a
/// derivation nobody performed.
pub open spec fn quality_of(name: Option<Seq<char>>) -> Option<TokenQuality> {
    match name {
        Some(name) => if name == "exact"@ {
            Some(TokenQuality::Exact)
        } else if name == "estimated"@ {
            Some(TokenQuality::Estimated)
        } else if name == "absent"@ {
            Some(TokenQuality::Unknown)
        } else {
            None
        },
        None => None,
    }
}

/// Whether a record with counts of that quality may carry that cost: none at all; what
/// reads as a double, where the counts are exact; a zero, where they are not.
pub open spec fn cost_allowed(quality: TokenQuality, raw: Option<Seq<char>>) -> bool {
    match raw {
        None => true,
        Some(raw) => match cost::reading(text::trimmed(raw)) {
            CostReading::Unreadable => false,
            CostReading::Zero => true,
            CostReading::Figure => quality == TokenQuality::Exact,
        },
    }
}

/// The instant `secs` seconds after the start of 1970, where the calendar reaches
/// that far.
pub open spec fn instant_of(secs: int) -> Option<i64> {
    if -8_334_601_228_800 <= secs <= 8_210_266_876_799 {
        Some(secs as i64)
    } else {
        None
    }
}

/// Whether `value` is a usage record that keeps the contract: every field that is
/// read is there and has its type, the stated key is the derived one, the backend
/// and the token quality are known, only exact counts carry a figure, and there is a
/// cost exactly where there is a pricing version.
pub open spec fn is_usage(value: json::JsonTree) -> bool {
    let event = value.member("event"@)->0;
    let payload = event.member("payload"@)->0;
    let quality = quality_of(payload.text_at("tokenQuality"@));
    let cost = payload.nullable_text_at("costUsd"@);
    let version = payload.nullable_text_at("pricingVersion"@);
    &&& value.member("event"@) is Some && event is Object
    &&& event.text_at("event_type"@) == Some("model.usage"@)
    &&& event.text_at("trace_id"@) is Some
    &&& event.count_at("sequence"@) is Some
    &&& value.text_at("dedupKey"@) == Some(
        key_of(event.text_at("trace_id"@)->0, event.count_at("sequence"@)->0),
    )
    &&& event.count_at("timestamp_utc"@) is Some
    &&& event.count_at("timestamp_utc"@)->0 <= i64::MAX
    &&& event.text_at("run_id"@) is Some
    &&& event.text_at("session_id"@) is Some
    &&& event.member("payload"@) is Some && payload is Object
    &&& payload.text_at("backend"@) is Some
    &&& config::is_covered(payload.text_at("backend"@)->0)
    &&& quality is Some
    &&& cost is Some
    &&& cost_allowed(quality->0, cost->0)
    &&& version is Some
    &&& (cost->0 is None) == (version->0 is None)
    &&& payload.member("servedModel"@) is None || payload.nullable_text_at("servedModel"@) is Some
    &&& payload.text_at("model"@) is Some
    &&& payload.nullable_count_at("promptTokens"@) is Some
    &&& payload.nullable_count_at("completionTokens"@) is Some
    &&& payload.count_at("latencyMs"@) is Some
}

/// The record that a usage line carries.
pub open spec fn record_of(value: json::JsonTree) -> RecordView {
    let event = value.member("event"@)->0;
    let payload = event.member("payload"@)->0;
    let run_id = event.text_at("run_id"@)->0;
    RecordView {
        dedup_key: value.text_at("dedupKey"@)->0,
        backend: payload.text_at("backend"@)->0,
        model: payload.text_at("model"@)->0,
        served_model: payload.text_at("servedModel"@),
        prompt_tokens: payload.nullable_count_at("promptTokens"@)->0,
        completion_tokens: payload.nullable_count_at("completionTokens"@)->0,
        token_quality: quality_of(payload.text_at("tokenQuality"@))->0,
        latency_ms: payload.count_at("latencyMs"@)->0,
        cost_usd: match payload.text_at("costUsd"@) {
            Some(raw) => Some(text::trimmed(raw)),
            None => None,
        },
        pricing_version: payload.text_at("pricingVersion"@),
        timestamp: instant_of(event.count_at("timestamp_utc"@)->0 as int),
        session_id: if run_id.len() == 0 {
            event.text_at("session_id"@)->0
        } else {
            run_id
        },
    }
}

/// What one line is.
#[derive(Debug)]
pub enum Line {
    Usage(Box<SkylarkRecord>),
    /// So many rows were lost before the log could see them.
    Gap(u64),
    Unreadable,
}

/// What a [`Line`] says.
pub ghost enum LineView {
    Usage(RecordView),
    Gap(u64),
    Unreadable,
}

impl View for Line {
    type V = LineView;

    open spec fn view(&self) -> LineView {
        match *self {
            Line::Usage(record) => LineView::Usage(record@),
            Line::Gap(lagged) => LineView::Gap(lagged),
            Line::Unreadable => LineView::Unreadable,
        }
    }
}

/// What a line is, given the JSON value it stands for, if it is JSON. A line from
/// another contract is unreadable, and so is a record that breaks this one.
pub open spec fn line_of(value: Option<json::JsonTree>) -> LineView {
    match value {
        None => LineView::Unreadable,
        Some(value) => if value.text_at("contractVersion"@) != Some(
            config::EXPORT_CONTRACT_VERSION@,
        ) {
            LineView::Unreadable
        } else if value.text_at("record"@) == Some("gap"@) {
            match value.count_at("lagged"@) {
                Some(lagged) => LineView::Gap(lagged),
                None => LineView::Unreadable,
            }
        } else if value.text_at("record"@) == Some("usage"@) && is_usage(value) {
            LineView::Usage(record_of(value))
        } else {
            LineView::Unreadable
        },
    }
}

/// Reads a field that may be null: nothing where it is missing or is neither null
/// nor an unsigned integer.
pub fn as_opt_u64(value: Option<&Json>) -> (r: Option<Option<u64>>)
    ensures
        r == (match value {
            None => None,
            Some(v) => match v@ {
                json::JsonTree::Null => Some(None),
                json::JsonTree::Number(Some(n)) => Some(Some(n)),
                _ => None,
            },
        }),
{
    let value = value?;
    if value.is_null() {
        return Some(None);
    }
    match value.as_u64() {
        Some(n) => Some(Some(n)),
        None => None,
    }
}

/// Reads a field that may be null: nothing where it is missing or is neither null
/// nor a text.
pub fn as_opt_str(value: Option<&Json>) -> (r: Option<Option<&str>>)
    ensures
        match value {
            None => r is None,
            Some(v) => match v@ {
                json::JsonTree::Null => r == Some(None::<&str>),
                json::JsonTree::Text(s) => r matches Some(Some(t)) && t@ == s,
                _ => r is None,
            },
        },
{
    let value = value?;
    if value.is_null() {
        return Some(None);
    }
    match value.as_str() {
        Some(s) => Some(Some(s)),
        None => None,
    }
}

/// `chrono::Utc.timestamp_opt(secs, 0)`, read back in seconds: there is exactly one
/// such instant for the dates from the start of the year -262143 to the end of the
/// year 262142, and none outside.
#[verifier::external_body]
fn instant(secs: i64) -> (r: Option<i64>)
    ensures
        r == instant_of(secs as int),
{
    chrono::TimeZone::timestamp_opt(&chrono::Utc, secs, 0).single().map(|t| t.timestamp())
}

/// The token quality that the export calls `name`.
fn token_quality(name: &str) -> (r: Option<TokenQuality>)
    ensures
        r == quality_of(Some(name@)),
{
    if same_text(name, "exact") {
        Some(TokenQuality::Exact)
    } else if same_text(name, "estimated") {
        Some(TokenQuality::Estimated)
    } else if same_text(name, "absent") {
        Some(TokenQuality::Unknown)
    } else {
        None
    }
}

/// The cost text `raw`, where a record with counts of that quality may carry it.
fn cost_text(quality: TokenQuality, raw: &str) -> (r: Option<String>)
    ensures
        match r {
            Some(s) => cost_allowed(quality, Some(raw@)) && s@ == text::trimmed(raw@),
            None => !cost_allowed(quality, Some(raw@)),
        },
{
    let chars = chars_of(raw);
    let inner = trim_chars(chars.as_slice());
    match read_cost(inner) {
        CostReading::Unreadable => None,
        CostReading::Zero => Some(string_of(inner)),
        CostReading::Figure => if quality == TokenQuality::Exact {
            Some(string_of(inner))
        } else {
            None
        },
    }
}

/// The record that `value` carries, where it is a usage record that keeps the
/// contract.
pub fn parse_usage(value: &Json) -> (r: Option<SkylarkRecord>)
    ensures
        match r {
            Some(record) => is_usage(value@) && record@ == record_of(value@),
            None => !is_usage(value@),
        },
{
    let stated_key = value.get("dedupKey")?.as_str()?;
    let event = value.get("event")?;
    if !event.is_object() {
        return None;
    }
    if !same_text(event.get("event_type")?.as_str()?, "model.usage") {
        return None;
    }
    let trace_id = event.get("trace_id")?.as_str()?;
    let sequence: u64 = event.get("sequence")?.as_u64()?;
    if !same_text(stated_key, dedup_key(trace_id, sequence).as_str()) {
        return None;
    }
    let timestamp_utc: u64 = event.get("timestamp_utc")?.as_u64()?;
    let run_id = event.get("run_id")?.as_str()?;
    let emitter = event.get("session_id")?.as_str()?;
    let payload = event.get("payload")?;
    if !payload.is_object() {
        return None;
    }
    let backend = payload.get("backend")?.as_str()?;
    if !config::covers(backend) {
        return None;
    }
    let quality = token_quality(payload.get("tokenQuality")?.as_str()?)?;
    let cost_usd: Option<String> = match as_opt_str(payload.get("costUsd"))? {
        Some(raw) => Some(cost_text(quality, raw)?),
        None => None,
    };
    let pricing_version: Option<String> = match as_opt_str(payload.get("pricingVersion"))? {
        Some(version) => Some(version.to_owned()),
        None => None,
    };
    let served_model: Option<String> = match payload.get("servedModel") {
        None => None,
        present => match as_opt_str(present)? {
            Some(model) => Some(model.to_owned()),
            None => None,
        },
    };
    if cost_usd.is_none() != pricing_version.is_none() {
        return None;
    }
    let model = payload.get("model")?.as_str()?;
    let prompt_tokens: Option<u64> = as_opt_u64(payload.get("promptTokens"))?;
    let completion_tokens: Option<u64> = as_opt_u64(payload.get("completionTokens"))?;
    let latency_ms: u64 = payload.get("latencyMs")?.as_u64()?;
    if timestamp_utc > i64::MAX as u64 {
        return None;
    }
    let timestamp: Option<i64> = instant(timestamp_utc as i64);
    let session_id: String = if run_id.is_empty() {
        emitter.to_owned()
    } else {
        run_id.to_owned()
    };
    Some(
        SkylarkRecord {
            dedup_key: stated_key.to_owned(),
            backend: backend.to_owned(),
            model: model.to_owned(),
            served_model,
            prompt_tokens,
            completion_tokens,
            token_quality: quality,
            latency_ms,
            cost_usd,
            pricing_version,
            timestamp,
            session_id,
        },
    )
}

/// What the line with that JSON value is.
pub fn classify(value: &Json) -> (line: Line)
    ensures
        line@ == line_of(Some(value@)),
{
    let version = match value.get("contractVersion") {
        Some(v) => v.as_str(),
        None => None,
    };
    match version {
        Some(version) if same_text(version, config::EXPORT_CONTRACT_VERSION) => {},
        _ => {
            return Line::Unreadable;
        },
    }
    let record = match value.get("record") {
        Some(v) => v.as_str(),
        None => None,
    };
    match record {
        Some(record) => {
            if same_text(record, "gap") {
                let lagged = match value.get("lagged") {
                    Some(v) => v.as_u64(),
                    None => None,
                };
                match lagged {
                    Some(lagged) => Line::Gap(lagged),
                    None => Line::Unreadable,
                }
            } else if same_text(record, "usage") {
                match parse_usage(value) {
                    Some(record) => Line::Usage(Box::new(record)),
                    None => Line::Unreadable,
                }
            } else {
                Line::Unreadable
            }
        },
        None => Line::Unreadable,
    }
}

/// What a line is.
pub fn parse_line(line: &str) -> (r: Line)
    ensures
        r@ == line_of(json::json_of_line(line@)),
{
    match parse_json(line) {
        Some(value) => classify(&value),
        None => Line::Unreadable,
    }
}

/// What one export file yielded.
#[derive(Clone, Debug)]
pub struct ExportParse {
    pub records: Vec<SkylarkRecord>,
    /// Rows the daemon recorded as lost, summed across every gap marker in the file.
    /// Totals over a file with a non-zero gap are a floor, not a figure.
    pub lagged_rows: u64,
    /// Lines that did not parse or did not satisfy the contract.
    pub skipped_lines: usize,
}

/// What an [`ExportParse`] says.
pub ghost struct ExportView {
    pub records: Seq<RecordView>,
    pub lagged_rows: u64,
    pub skipped_lines: nat,
}

/// What each of `records` says.
pub open spec fn record_views(records: Seq<SkylarkRecord>) -> Seq<RecordView> {
    Seq::new(records.len(), |i: int| records[i]@)
}

impl View for ExportParse {
    type V = ExportView;

    open spec fn view(&self) -> ExportView {
        ExportView {
            records: record_views(self.records@),
            lagged_rows: self.lagged_rows,
            skipped_lines: self.skipped_lines as nat,
        }
    }
}

/// The sum of two counts, or the largest count where it would be larger.
pub open spec fn saturating_sum(a: nat, b: nat) -> u64 {
    if a + b > u64::MAX {
        u64::MAX
    } else {
        (a + b) as u64
    }
}

/// A parse with one more line.
pub open spec fn with_line(parse: ExportView, line: LineView) -> ExportView {
    match line {
        LineView::Usage(record) => ExportView { records: parse.records.push(record), ..parse },
        LineView::Gap(lagged) => ExportView {
            lagged_rows: saturating_sum(parse.lagged_rows as nat, lagged as nat),
            ..parse
        },
        LineView::Unreadable => ExportView { skipped_lines: parse.skipped_lines + 1, ..parse },
    }
}

/// A parse of nothing.
pub open spec fn no_lines() -> ExportView {
    ExportView { records: Seq::empty(), lagged_rows: 0, skipped_lines: 0 }
}

/// Whether a line holds nothing but white space.
pub open spec fn is_blank(line: Seq<char>) -> bool {
    text::trimmed(line).len() == 0
}

/// What the lines that are not blank are, in order.
pub open spec fn read_lines(lines: Seq<Seq<char>>) -> Seq<LineView>
    decreases lines.len(),
{
    if lines.len() == 0 {
        Seq::empty()
    } else if is_blank(lines.last()) {
        read_lines(lines.drop_last())
    } else {
        read_lines(lines.drop_last()).push(line_of(json::json_of_line(lines.last())))
    }
}

/// The records among `lines`, in order.
pub open spec fn usage_records(lines: Seq<LineView>) -> Seq<RecordView>
    decreases lines.len(),
{
    if lines.len() == 0 {
        Seq::empty()
    } else {
        match lines.last() {
            LineView::Usage(record) => usage_records(lines.drop_last()).push(record),
            _ => usage_records(lines.drop_last()),
        }
    }
}

/// How many rows the gap markers among `lines` say were lost.
pub open spec fn lost_rows(lines: Seq<LineView>) -> nat
    decreases lines.len(),
{
    if lines.len() == 0 {
        0
    } else {
        match lines.last() {
            LineView::Gap(lagged) => lost_rows(lines.drop_last()) + lagged as nat,
            _ => lost_rows(lines.drop_last()),
        }
    }
}

/// How many of `lines` are unreadable.
pub open spec fn unreadable_lines(lines: Seq<LineView>) -> nat
    decreases lines.len(),
{
    if lines.len() == 0 {
        0
    } else {
        match lines.last() {
            LineView::Unreadable => unreadable_lines(lines.drop_last()) + 1,
            _ => unreadable_lines(lines.drop_last()),
        }
    }
}

/// What an export with those lines yields: every record in order, the rows lost as
/// far as they can be counted, and the number of unreadable lines.
pub open spec fn export_of(lines: Seq<LineView>) -> ExportView {
    ExportView {
        records: usage_records(lines),
        lagged_rows: saturating_sum(lost_rows(lines), 0),
        skipped_lines: unreadable_lines(lines),
    }
}

impl Default for ExportParse {
    /// A parse of nothing.
    fn default() -> (parse: ExportParse)
        ensures
            parse@ == no_lines(),
    {
        let parse = ExportParse { records: Vec::new(), lagged_rows: 0, skipped_lines: 0 };
        assert(parse@.records == Seq::<RecordView>::empty());
        parse
    }
}

impl ExportParse {
    /// Takes in one more line.
    pub fn add(&mut self, line: Line)
        requires
            line@ is Unreadable ==> old(self)@.skipped_lines < usize::MAX,
        ensures
            final(self)@ == with_line(old(self)@, line@),
    {
        match line {
            Line::Usage(record) => {
                self.records.push(*record);
            },
            Line::Gap(lagged) => {
                self.lagged_rows = self.lagged_rows.saturating_add(lagged);
            },
            Line::Unreadable => {
                self.skipped_lines += 1;
            },
        }
        assert(self@.records == with_line(old(self)@, line@).records);
    }
}

/// Every record in one export's text.
pub fn parse_export(text: &str) -> (parse: ExportParse)
    ensures
        parse@ == export_of(read_lines(text::lines(text@))),
{
    let mut parse = ExportParse::default();
    let lines = lines_of(text);
    let ghost all = text::texts(lines@);
    let mut i: usize = 0;
    assert(parse@ == export_of(read_lines(all.take(0))));
    while i < lines.len()
        invariant
            i <= lines@.len(),
            all == text::texts(lines@),
            parse@ == export_of(read_lines(all.take(i as int))),
            parse@.skipped_lines <= i,
        decreases lines@.len() - i,
    {
        let line = lines[i].as_str();
        proof {
            assert(all.take(i + 1).drop_last() == all.take(i as int));
            assert(all.take(i + 1).last() == line@);
        }
        if !trim_chars(chars_of(line).as_slice()).is_empty() {
            let ghost before = read_lines(all.take(i as int));
            let read = parse_line(line);
            assert(before.push(read@).drop_last() == before);
            parse.add(read);
            assert(parse@ == export_of(before.push(read@)));
        }
        i += 1;
    }
    assert(all.take(i as int) == all);
    parse
}

/// What a call row says of a record: the model that did the work where it is known,
/// and of a call that was not priced no money.
pub open spec fn call_of(record: RecordView, project: Seq<char>) -> call::CallView {
    call::CallView {
        tool: config::TOOL_ID@,
        model: match record.served_model {
            Some(model) => model,
            None => record.model,
        },
        input_tokens: match record.prompt_tokens {
            Some(n) => n,
            None => 0,
        },
        output_tokens: match record.completion_tokens {
            Some(n) => n,
            None => 0,
        },
        cost_usd: match record.cost_usd {
            Some(cost) => cost,
            None => "0"@,
        },
        timestamp: record.timestamp,
        speed: Speed::Standard,
        dedup_key: record.dedup_key,
        session_id: record.session_id,
        project,
        elapsed_ms: Some(record.latency_ms),
        interaction_mode: InteractionMode::Agent,
        token_quality: record.token_quality,
        timestamp_quality: TimestampQuality::Exact,
    }
}

/// One [`SkylarkRecord`] as a call row.
///
/// A record that Skylark could not price contributes nothing to a spend total. That
/// is the right total, since an unpriceable call adds no money to it, but it is not
/// the right fact, and it is not repaired by pricing the call here.
pub fn to_parsed_call(record: &SkylarkRecord, project: &str) -> (row: ParsedCall)
    ensures
        row@ == call_of(record@, project@),
{
    let model: String = match &record.served_model {
        Some(model) => model.clone(),
        None => record.model.clone(),
    };
    let input_tokens: u64 = record.prompt_tokens.unwrap_or(0);
    let output_tokens: u64 = record.completion_tokens.unwrap_or(0);
    let cost_usd: String = match &record.cost_usd {
        Some(cost) => cost.clone(),
        None => "0".to_owned(),
    };
    ParsedCall {
        tool: config::TOOL_ID,
        model,
        input_tokens,
        output_tokens,
        cost_usd,
        timestamp: record.timestamp,
        speed: Speed::Standard,
        dedup_key: record.dedup_key.clone(),
        session_id: record.session_id.clone(),
        project: project.to_owned(),
        elapsed_ms: Some(record.latency_ms),
        interaction_mode: InteractionMode::Agent,
        token_quality: record.token_quality,
        timestamp_quality: TimestampQuality::Exact,
    }
}

/// Totals over a set of records.
#[derive(Clone, Copy, Debug, PartialEq, Eq, Structural)]
pub struct Totals {
    pub calls: u64,
    pub input_tokens: u64,
    pub output_tokens: u64,
    pub priced: u64,
    pub unpriced: u64,
}

/// The sum of the prompt tokens that were reported.
pub open spec fn prompt_total(records: Seq<RecordView>) -> nat
    decreases records.len(),
{
    if records.len() == 0 {
        0
    } else {
        prompt_total(records.drop_last()) + match records.last().prompt_tokens {
            Some(n) => n as nat,
            None => 0,
        }
    }
}

/// The sum of the completion tokens that were reported.
pub open spec fn completion_total(records: Seq<RecordView>) -> nat
    decreases records.len(),
{
    if records.len() == 0 {
        0
    } else {
        completion_total(records.drop_last()) + match records.last().completion_tokens {
            Some(n) => n as nat,
            None => 0,
        }
    }
}

/// How many records carry a cost.
pub open spec fn priced_count(records: Seq<RecordView>) -> nat
    decreases records.len(),
{
    if records.len() == 0 {
        0
    } else {
        priced_count(records.drop_last()) + if records.last().cost_usd is Some {
            1nat
        } else {
            0nat
        }
    }
}

/// The totals grow with the records.
proof fn lemma_totals_grow(records: Seq<RecordView>, n: int)
    requires
        0 <= n <= records.len(),
    ensures
        prompt_total(records.take(n)) <= prompt_total(records),
        completion_total(records.take(n)) <= completion_total(records),
    decreases records.len() - n,
{
    if n < records.len() {
        lemma_totals_grow(records, n + 1);
        assert(records.take(n + 1).drop_last() == records.take(n));
    } else {
        assert(records.take(n) == records);
    }
}

/// Totals over `records`. The token sums have to fit their counters.
pub fn totals(records: &[SkylarkRecord]) -> (t: Totals)
    requires
        prompt_total(record_views(records@)) <= u64::MAX,
        completion_total(record_views(records@)) <= u64::MAX,
    ensures
        t.calls == records@.len(),
        t.input_tokens == prompt_total(record_views(records@)),
        t.output_tokens == completion_total(record_views(records@)),
        t.priced == priced_count(record_views(records@)),
        t.unpriced == records@.len() - priced_count(record_views(records@)),
{
    let ghost all = record_views(records@);
    let mut t = Totals { calls: 0, input_tokens: 0, output_tokens: 0, priced: 0, unpriced: 0 };
    let n: usize = records.len();
    let mut i: usize = 0;
    while i < n
        invariant
            i <= n == records@.len(),
            all == record_views(records@),
            prompt_total(all) <= u64::MAX,
            completion_total(all) <= u64::MAX,
            t.calls == i,
            t.input_tokens == prompt_total(all.take(i as int)),
            t.output_tokens == completion_total(all.take(i as int)),
            t.priced == priced_count(all.take(i as int)),
            t.priced + t.unpriced == i,
        decreases records@.len() - i,
    {
        let record = &records[i];
        proof {
            lemma_totals_grow(all, i + 1);
            assert(all.take(i + 1).drop_last() == all.take(i as int));
            assert(all.take(i + 1).last() == record@);
        }
        t.calls += 1;
        if let Some(n) = record.prompt_tokens {
            t.input_tokens += n;
        }
        if let Some(n) = record.completion_tokens {
            t.output_tokens += n;
        }
        if record.cost_usd.is_some() {
            t.priced += 1;
        } else {
            t.unpriced += 1;
        }
        i += 1;
    }
    assert(all.take(i as int) == all);
    t
}

} // verus!
