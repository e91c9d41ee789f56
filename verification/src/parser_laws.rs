//! Which lines are read and what they say, stated by what stands on the line.

use crate::call;
use crate::call::{InteractionMode, ParsedCall, Speed, TimestampQuality, TokenQuality};
use crate::config;
use crate::cost;
use crate::cost::CostReading;
use crate::json;
use crate::json::Json;
use crate::laws;
use crate::parser;
use crate::parser::{ExportParse, Line, SkylarkRecord};
use crate::text;
use crate::text_laws;
use vstd::prelude::*;

verus! {

/// A JSON value means what it holds, level by level.
pub proof fn law_a_value_means_what_it_holds(
    b: bool,
    n: Option<u64>,
    s: String,
    items: Vec<Json>,
    members: Vec<(String, Json)>,
)
    ensures
        Json::Null@ == json::JsonTree::Null,
        Json::Bool(b)@ == json::JsonTree::Bool(b),
        Json::Number(n)@ == json::JsonTree::Number(n),
        Json::Text(s)@ == json::JsonTree::Text(s@),
        Json::List(items)@ == json::JsonTree::List(
            Seq::new(items@.len(), |i: int| items@[i]@),
        ),
        Json::Object(members)@ == json::JsonTree::Object(
            Seq::new(members@.len(), |i: int| (members@[i].0@, members@[i].1@)),
        ),
{
    json::lemma_trees(items@);
    json::lemma_member_trees(members@);
    assert(json::trees(items@) == Seq::new(items@.len(), |i: int| items@[i]@));
    assert(json::member_trees(members@) == Seq::new(
        members@.len(),
        |i: int| (members@[i].0@, members@[i].1@),
    ));
}

/// The member of an object that has a name is the first one that has it.
pub proof fn law_the_first_member_of_a_name_is_found(
    members: Seq<(Seq<char>, json::JsonTree)>,
    key: Seq<char>,
    n: int,
)
    requires
        0 <= n <= members.len(),
        forall|i: int| 0 <= i < n ==> #[trigger] members[i].0 != key,
        n < members.len() ==> members[n].0 == key,
    ensures
        json::JsonTree::Object(members).member(key) == if n < members.len() {
            Some(members[n].1)
        } else {
            None
        },
    decreases n,
{
    if n > 0 {
        let rest = members.drop_first();
        assert forall|i: int| 0 <= i < n - 1 implies #[trigger] rest[i].0 != key by {
            assert(rest[i] == members[i + 1]);
        }
        assert(members[0].0 != key);
        law_the_first_member_of_a_name_is_found(rest, key, n - 1);
    }
}

/// Only an object has members, and a member is of a type where it is there and is.
pub proof fn law_members_have_types(value: json::JsonTree, key: Seq<char>)
    ensures
        !(value is Object) ==> value.member(key) is None,
        forall|s: Seq<char>|
            value.text_at(key) == Some(s) <==> value.member(key) == Some(json::JsonTree::Text(s)),
        forall|n: u64|
            value.count_at(key) == Some(n) <==> value.member(key) == Some(
                json::JsonTree::Number(Some(n)),
            ),
        forall|s: Seq<char>|
            value.nullable_text_at(key) == Some(Some(s)) <==> value.member(key) == Some(
                json::JsonTree::Text(s),
            ),
        value.nullable_text_at(key) == Some(None::<Seq<char>>) <==> value.member(key) == Some(
            json::JsonTree::Null,
        ),
        forall|n: u64|
            value.nullable_count_at(key) == Some(Some(n)) <==> value.member(key) == Some(
                json::JsonTree::Number(Some(n)),
            ),
        value.nullable_count_at(key) == Some(None::<u64>) <==> value.member(key) == Some(
            json::JsonTree::Null,
        ),
{
}

/// What stands in the fields of a usage line.
pub ghost struct UsageFields {
    pub key: Seq<char>,
    pub trace: Seq<char>,
    pub sequence: u64,
    pub time: u64,
    pub run: Seq<char>,
    pub site: Seq<char>,
    pub backend: Seq<char>,
    pub quality: Seq<char>,
    pub cost: Option<Seq<char>>,
    pub version: Option<Seq<char>>,
    pub model: Seq<char>,
    pub served: Option<Seq<char>>,
    pub prompt: Option<u64>,
    pub completion: Option<u64>,
    pub latency: u64,
}

/// A text that may be null.
pub open spec fn text_or_null(t: Option<Seq<char>>) -> json::JsonTree {
    match t {
        Some(s) => json::JsonTree::Text(s),
        None => json::JsonTree::Null,
    }
}

/// A count that may be null.
pub open spec fn count_or_null(n: Option<u64>) -> json::JsonTree {
    match n {
        Some(n) => json::JsonTree::Number(Some(n)),
        None => json::JsonTree::Null,
    }
}

/// Whether `value` is a usage line of this contract with `fields` in its fields. A served
/// model may be missing.
pub open spec fn carries(
    value: json::JsonTree,
    event: json::JsonTree,
    payload: json::JsonTree,
    fields: UsageFields,
) -> bool {
    &&& value.member("contractVersion"@) == Some(json::JsonTree::Text("skylark-model-usage-v1"@))
    &&& value.member("record"@) == Some(json::JsonTree::Text("usage"@))
    &&& value.member("dedupKey"@) == Some(json::JsonTree::Text(fields.key))
    &&& value.member("event"@) == Some(event)
    &&& event.member("event_type"@) == Some(json::JsonTree::Text("model.usage"@))
    &&& event.member("trace_id"@) == Some(json::JsonTree::Text(fields.trace))
    &&& event.member("sequence"@) == Some(json::JsonTree::Number(Some(fields.sequence)))
    &&& event.member("timestamp_utc"@) == Some(json::JsonTree::Number(Some(fields.time)))
    &&& event.member("run_id"@) == Some(json::JsonTree::Text(fields.run))
    &&& event.member("session_id"@) == Some(json::JsonTree::Text(fields.site))
    &&& event.member("payload"@) == Some(payload)
    &&& payload.member("backend"@) == Some(json::JsonTree::Text(fields.backend))
    &&& payload.member("tokenQuality"@) == Some(json::JsonTree::Text(fields.quality))
    &&& payload.member("costUsd"@) == Some(text_or_null(fields.cost))
    &&& payload.member("pricingVersion"@) == Some(text_or_null(fields.version))
    &&& payload.member("model"@) == Some(json::JsonTree::Text(fields.model))
    &&& payload.member("servedModel"@) == Some(text_or_null(fields.served)) || (fields.served is None
        && payload.member("servedModel"@) is None)
    &&& payload.member("promptTokens"@) == Some(count_or_null(fields.prompt))
    &&& payload.member("completionTokens"@) == Some(count_or_null(fields.completion))
    &&& payload.member("latencyMs"@) == Some(json::JsonTree::Number(Some(fields.latency)))
}

/// Whether `fields` keep the contract: the stated key is the derived one, the backend and
/// the quality are known, there is a cost exactly where there is a version, and a cost is
/// readable, and a zero where the counts are not exact.
pub open spec fn keeps_contract(fields: UsageFields) -> bool {
    &&& fields.key == "skylark:"@ + fields.trace + ":"@ + text::decimal(fields.sequence as nat)
    &&& fields.time <= i64::MAX
    &&& fields.backend == "cloud_escalation"@ || fields.backend == "vsr"@ || fields.backend
        == "local_vllm"@ || fields.backend == "npu"@
    &&& fields.quality == "exact"@ || fields.quality == "estimated"@ || fields.quality == "absent"@
    &&& fields.cost is Some <==> fields.version is Some
    &&& fields.cost matches Some(raw) ==> {
        let reading = cost::reading(text::trimmed(raw));
        reading == CostReading::Zero || (reading == CostReading::Figure && fields.quality
            == "exact"@)
    }
}

/// The record that `fields` make.
pub open spec fn record_from(fields: UsageFields) -> parser::RecordView {
    parser::RecordView {
        dedup_key: fields.key,
        backend: fields.backend,
        model: fields.model,
        served_model: fields.served,
        prompt_tokens: fields.prompt,
        completion_tokens: fields.completion,
        token_quality: if fields.quality == "exact"@ {
            TokenQuality::Exact
        } else if fields.quality == "estimated"@ {
            TokenQuality::Estimated
        } else {
            TokenQuality::Unknown
        },
        latency_ms: fields.latency,
        cost_usd: match fields.cost {
            Some(raw) => Some(text::trimmed(raw)),
            None => None,
        },
        pricing_version: fields.version,
        timestamp: if fields.time <= 8_210_266_876_799 {
            Some(fields.time as i64)
        } else {
            None
        },
        session_id: if fields.run.len() > 0 {
            fields.run
        } else {
            fields.site
        },
    }
}

/// Every usage line that keeps the contract is read, as the record that its fields make:
/// one that was not priced whatever the quality of its counts, one with a recorded zero
/// likewise, and one with any other cost where its counts are exact.
pub proof fn law_a_line_that_keeps_the_contract_is_read(
    value: json::JsonTree,
    event: json::JsonTree,
    payload: json::JsonTree,
    fields: UsageFields,
)
    requires
        carries(value, event, payload, fields),
        keeps_contract(fields),
    ensures
        parser::line_of(Some(value)) == parser::LineView::Usage(record_from(fields)),
{
    reveal_strlit("gap");
    reveal_strlit("usage");
    assert("gap"@.len() != "usage"@.len());
    reveal_strlit("exact");
    reveal_strlit("estimated");
    reveal_strlit("absent");
    assert(parser::record_of(value) == record_from(fields));
}

/// Nothing else is read as a usage line: a line that is carries fields that keep the
/// contract, and is the record that they make.
pub proof fn law_only_lines_that_keep_the_contract_are_read(value: json::JsonTree)
    requires
        parser::line_of(Some(value)) is Usage,
    ensures
        exists|event: json::JsonTree, payload: json::JsonTree, fields: UsageFields| #[trigger]
            carries(value, event, payload, fields) && keeps_contract(fields) && parser::line_of(
                Some(value),
            ) == parser::LineView::Usage(record_from(fields)),
{
    let event = value.member("event"@)->0;
    let payload = event.member("payload"@)->0;
    let fields = UsageFields {
        key: value.text_at("dedupKey"@)->0,
        trace: event.text_at("trace_id"@)->0,
        sequence: event.count_at("sequence"@)->0,
        time: event.count_at("timestamp_utc"@)->0,
        run: event.text_at("run_id"@)->0,
        site: event.text_at("session_id"@)->0,
        backend: payload.text_at("backend"@)->0,
        quality: payload.text_at("tokenQuality"@)->0,
        cost: payload.nullable_text_at("costUsd"@)->0,
        version: payload.nullable_text_at("pricingVersion"@)->0,
        model: payload.text_at("model"@)->0,
        served: payload.text_at("servedModel"@),
        prompt: payload.nullable_count_at("promptTokens"@)->0,
        completion: payload.nullable_count_at("completionTokens"@)->0,
        latency: payload.count_at("latencyMs"@)->0,
    };
    assert(carries(value, event, payload, fields));
    assert(keeps_contract(fields));
    law_a_line_that_keeps_the_contract_is_read(value, event, payload, fields);
}

/// A line is a gap of so many rows exactly where it is a gap line of this contract that
/// says so, and what is not JSON is unreadable.
pub proof fn law_which_lines_are_gaps(value: json::JsonTree, lagged: u64)
    ensures
        parser::line_of(Some(value)) == parser::LineView::Gap(lagged) <==> {
            &&& value.member("contractVersion"@) == Some(
                json::JsonTree::Text("skylark-model-usage-v1"@),
            )
            &&& value.member("record"@) == Some(json::JsonTree::Text("gap"@))
            &&& value.member("lagged"@) == Some(json::JsonTree::Number(Some(lagged)))
        },
        parser::line_of(None) == parser::LineView::Unreadable,
{
}

/// A call row repeats its record: each count that was reported, whatever the other one is,
/// and nothing for one that was not; the model that served the call, or the one that was
/// asked for; and the key, the session, the time and the quality as they are.
pub proof fn law_a_call_row_repeats_its_record(record: parser::RecordView, project: Seq<char>)
    ensures
        ({
            let row = parser::call_of(record, project);
            &&& record.prompt_tokens matches Some(n) ==> row.input_tokens == n
            &&& record.prompt_tokens is None ==> row.input_tokens == 0
            &&& record.completion_tokens matches Some(n) ==> row.output_tokens == n
            &&& record.completion_tokens is None ==> row.output_tokens == 0
            &&& record.served_model matches Some(model) ==> row.model == model
            &&& record.served_model is None ==> row.model == record.model
            &&& record.cost_usd matches Some(cost) ==> row.cost_usd == cost
            &&& record.cost_usd is None ==> row.cost_usd == "0"@
            &&& row.tool == "skylark"@
            &&& row.timestamp == record.timestamp
            &&& row.dedup_key == record.dedup_key
            &&& row.session_id == record.session_id
            &&& row.project == project
            &&& row.elapsed_ms == Some(record.latency_ms)
            &&& row.token_quality == record.token_quality
            &&& row.speed == Speed::Standard
            &&& row.interaction_mode == InteractionMode::Agent
            &&& row.timestamp_quality == TimestampQuality::Exact
        }),
{
}

/// A record says what its fields hold.
pub proof fn law_a_record_says_what_it_holds(r: SkylarkRecord)
    ensures
        r@.dedup_key == r.dedup_key@,
        r@.backend == r.backend@,
        r@.model == r.model@,
        r.served_model matches Some(model) ==> r@.served_model == Some(model@),
        r.served_model is None ==> r@.served_model is None,
        r@.prompt_tokens == r.prompt_tokens,
        r@.completion_tokens == r.completion_tokens,
        r@.token_quality == r.token_quality,
        r@.latency_ms == r.latency_ms,
        r.cost_usd matches Some(cost) ==> r@.cost_usd == Some(cost@),
        r.cost_usd is None ==> r@.cost_usd is None,
        r.pricing_version matches Some(version) ==> r@.pricing_version == Some(version@),
        r.pricing_version is None ==> r@.pricing_version is None,
        r@.timestamp == r.timestamp,
        r@.session_id == r.session_id@,
{
}

/// A call row says what its fields hold.
pub proof fn law_a_call_row_says_what_it_holds(c: ParsedCall)
    ensures
        c@.tool == c.tool@,
        c@.model == c.model@,
        c@.input_tokens == c.input_tokens,
        c@.output_tokens == c.output_tokens,
        c@.cost_usd == c.cost_usd@,
        c@.timestamp == c.timestamp,
        c@.speed == c.speed,
        c@.dedup_key == c.dedup_key@,
        c@.session_id == c.session_id@,
        c@.project == c.project@,
        c@.elapsed_ms == c.elapsed_ms,
        c@.interaction_mode == c.interaction_mode,
        c@.token_quality == c.token_quality,
        c@.timestamp_quality == c.timestamp_quality,
{
}

/// A line and a parse say what they hold.
pub proof fn law_a_parse_says_what_it_holds(parse: ExportParse, line: Line)
    ensures
        parse@.records.len() == parse.records@.len(),
        forall|i: int|
            0 <= i < parse.records@.len() ==> #[trigger] parse@.records[i] == parse.records@[i]@,
        parse@.lagged_rows == parse.lagged_rows,
        parse@.skipped_lines == parse.skipped_lines,
        line matches Line::Usage(record) ==> line@ == parser::LineView::Usage(record@),
        line matches Line::Gap(lagged) ==> line@ == parser::LineView::Gap(lagged),
        line is Unreadable ==> line@ == parser::LineView::Unreadable,
{
}

/// Every line is accounted for: a usage line as its record, a gap as the rows it lost, an
/// unreadable line as one skipped, and no line as nothing; more lines are read as their
/// parts are, in order, and lost rows are counted as far as they can be.
pub proof fn law_every_line_is_accounted_for(
    a: Seq<parser::LineView>,
    b: Seq<parser::LineView>,
    record: parser::RecordView,
    lagged: u64,
)
    ensures
        ({
            let e = parser::export_of(Seq::empty());
            e.records.len() == 0 && e.lagged_rows == 0 && e.skipped_lines == 0
        }),
        ({
            let e = parser::export_of(seq![parser::LineView::Usage(record)]);
            e.records == seq![record] && e.lagged_rows == 0 && e.skipped_lines == 0
        }),
        ({
            let e = parser::export_of(seq![parser::LineView::Gap(lagged)]);
            e.records.len() == 0 && e.lagged_rows == lagged && e.skipped_lines == 0
        }),
        ({
            let e = parser::export_of(seq![parser::LineView::Unreadable]);
            e.records.len() == 0 && e.lagged_rows == 0 && e.skipped_lines == 1
        }),
        ({
            let (x, y, e) = (parser::export_of(a), parser::export_of(b), parser::export_of(a + b));
            &&& e.records == x.records + y.records
            &&& e.skipped_lines == x.skipped_lines + y.skipped_lines
            &&& e.lagged_rows as int == if x.lagged_rows + y.lagged_rows <= u64::MAX {
                x.lagged_rows + y.lagged_rows
            } else {
                u64::MAX as int
            }
        }),
{
    laws::lemma_counts_add_up(a, b);
    lemma_one_line(parser::LineView::Usage(record));
    lemma_one_line(parser::LineView::Gap(lagged));
    lemma_one_line(parser::LineView::Unreadable);
}

pub proof fn lemma_one_line(line: parser::LineView)
    ensures
        parser::usage_records(seq![line]) == (match line {
            parser::LineView::Usage(record) => seq![record],
            _ => Seq::empty(),
        }),
        parser::lost_rows(seq![line]) == (match line {
            parser::LineView::Gap(lagged) => lagged as nat,
            _ => 0,
        }),
        parser::unreadable_lines(seq![line]) == (match line {
            parser::LineView::Unreadable => 1nat,
            _ => 0,
        }),
{
    reveal_with_fuel(parser::usage_records, 2);
    reveal_with_fuel(parser::lost_rows, 2);
    reveal_with_fuel(parser::unreadable_lines, 2);
    assert(seq![line].drop_last().len() == 0);
    assert(seq![line].last() == line);
    if let parser::LineView::Usage(record) = line {
        assert(Seq::<parser::RecordView>::empty().push(record) == seq![record]);
    }
}

/// A parse takes in one line more as the export with that line more does: a record at the
/// end, rows that were lost as far as they can be counted, or one skipped line.
pub proof fn law_a_parse_takes_in_a_line(
    parse: parser::ExportView,
    record: parser::RecordView,
    lagged: u64,
)
    ensures
        parser::no_lines().records.len() == 0,
        parser::no_lines().lagged_rows == 0,
        parser::no_lines().skipped_lines == 0,
        ({
            let p = parser::with_line(parse, parser::LineView::Usage(record));
            p.records == parse.records.push(record) && p.lagged_rows == parse.lagged_rows
                && p.skipped_lines == parse.skipped_lines
        }),
        ({
            let p = parser::with_line(parse, parser::LineView::Gap(lagged));
            p.records == parse.records && p.skipped_lines == parse.skipped_lines
                && p.lagged_rows as int == if parse.lagged_rows + lagged <= u64::MAX {
                parse.lagged_rows + lagged
            } else {
                u64::MAX as int
            }
        }),
        ({
            let p = parser::with_line(parse, parser::LineView::Unreadable);
            p.records == parse.records && p.lagged_rows == parse.lagged_rows && p.skipped_lines
                == parse.skipped_lines + 1
        }),
{
}

/// Every line that is not all white space is read, in order, as the JSON value it stands
/// for; the others are passed over.
pub proof fn law_every_line_is_read(a: Seq<Seq<char>>, b: Seq<Seq<char>>, line: Seq<char>)
    ensures
        parser::read_lines(Seq::empty()).len() == 0,
        text_laws::all_white(line) ==> parser::read_lines(seq![line]).len() == 0,
        !text_laws::all_white(line) ==> parser::read_lines(seq![line]) == seq![
            parser::line_of(json::json_of_line(line)),
        ],
        parser::read_lines(a + b) == parser::read_lines(a) + parser::read_lines(b),
{
    text_laws::law_blank_is_all_white(line);
    laws::lemma_read_lines_add_up(a, b);
    reveal_with_fuel(parser::read_lines, 2);
    assert(seq![line].drop_last().len() == 0);
    assert(Seq::<parser::LineView>::empty().push(parser::line_of(json::json_of_line(line))) == seq![
        parser::line_of(json::json_of_line(line)),
    ]);
}

/// The JSON value of a line is that of the line without the carriage returns at its end.
pub proof fn law_returns_at_the_end_are_passed_over(line: Seq<char>, run: Seq<char>)
    requires
        line.len() > 0 ==> line.last() != '\r',
        forall|i: int| 0 <= i < run.len() ==> run[i] == '\r',
    ensures
        json::json_of_line(line + run) == json::json_of_text(line),
{
    text_laws::law_a_run_at_the_end_is_dropped(line, run, text::carriage_return());
}

/// The totals count every record, and every token that was reported.
pub proof fn law_totals_add_up(
    a: Seq<parser::RecordView>,
    b: Seq<parser::RecordView>,
    record: parser::RecordView,
)
    ensures
        parser::prompt_total(Seq::empty()) == 0,
        parser::completion_total(Seq::empty()) == 0,
        parser::priced_count(Seq::empty()) == 0,
        parser::prompt_total(seq![record]) == (match record.prompt_tokens {
            Some(n) => n as int,
            None => 0,
        }),
        parser::completion_total(seq![record]) == (match record.completion_tokens {
            Some(n) => n as int,
            None => 0,
        }),
        record.cost_usd is Some ==> parser::priced_count(seq![record]) == 1,
        record.cost_usd is None ==> parser::priced_count(seq![record]) == 0,
        parser::prompt_total(a + b) == parser::prompt_total(a) + parser::prompt_total(b),
        parser::completion_total(a + b) == parser::completion_total(a) + parser::completion_total(b),
        parser::priced_count(a + b) == parser::priced_count(a) + parser::priced_count(b),
    decreases b.len(),
{
    reveal_with_fuel(parser::prompt_total, 2);
    reveal_with_fuel(parser::completion_total, 2);
    reveal_with_fuel(parser::priced_count, 2);
    assert(seq![record].drop_last().len() == 0);
    assert(seq![record].last() == record);
    if b.len() == 0 {
        assert(a + b == a);
    } else {
        law_totals_add_up(a, b.drop_last(), record);
        assert((a + b).drop_last() == a + b.drop_last());
        assert((a + b).last() == b.last());
    }
}

/// The records that totals are taken over are those that were handed in, one for one.
pub proof fn law_records_say_what_they_hold(records: Seq<SkylarkRecord>)
    ensures
        parser::record_views(records).len() == records.len(),
        forall|i: int|
            0 <= i < records.len() ==> #[trigger] parser::record_views(records)[i] == records[i]@,
{
}

/// The key of a call is its trace and its sequence number, written out.
pub proof fn law_the_key_is_written_out(trace: Seq<char>, sequence: u64)
    ensures
        parser::key_of(trace, sequence) == "skylark:"@ + trace + ":"@ + text::decimal(
            sequence as nat,
        ),
{
}

/// The export covers four backends and no other.
pub proof fn law_four_backends_are_covered(backend: Seq<char>)
    ensures
        config::is_covered(backend) <==> backend == "cloud_escalation"@ || backend == "vsr"@
            || backend == "local_vllm"@ || backend == "npu"@,
{
}

/// A tool is found by its own identifier alone, and a call that carries any other is
/// labelled with the rest.
pub proof fn law_other_identifiers_are_the_rest(id: Seq<char>)
    ensures
        call::tool_with(id) matches Some(tool) ==> id == call::id_of(tool) && call::short_label(id)
            == call::label_of(tool),
        call::tool_with(id) is None ==> call::short_label(id) == "Other"@ && forall|
            tool: call::Tool,
        | #[trigger] call::id_of(tool) != id,
{
    if call::tool_with(id) is None {
        assert forall|tool: call::Tool| #[trigger] call::id_of(tool) != id by {
            match tool {
                call::Tool::ClaudeCode => {},
                call::Tool::Cursor => {},
                call::Tool::Codex => {},
                call::Tool::Copilot => {},
                call::Tool::Gemini => {},
                call::Tool::Skylark => {},
            }
        }
    }
}

} // verus!
