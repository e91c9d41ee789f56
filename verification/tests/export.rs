//! Reading exports: lines, records, call rows, and logs that grow.

use std::collections::BTreeMap;

use chrono::{TimeZone, Utc};
use tokenuse_skylark::call::{
    tool_label, InteractionMode, ParsedCall, Speed, TimestampQuality, TokenQuality, Tool,
};
use tokenuse_skylark::config;
use tokenuse_skylark::digest::fnv1a64_hex;
use tokenuse_skylark::json::{parse_json, Json};
use tokenuse_skylark::parser::{
    as_opt_str, as_opt_u64, classify, dedup_key, parse_export, parse_line, parse_usage,
    to_parsed_call, totals, ExportParse, Line, SkylarkRecord, Totals,
};
use tokenuse_skylark::session::{
    candidate, finish, parse_log, parse_session, parse_session_with_cursor, probe_hash,
    probe_window, resume_offset, AdapterParse, SourceCursor, StringHashSet, PARSE_VERSION,
    PROBE_BYTES,
};

/// Every field of the contract, all four backend classes, all three token qualities,
/// all three cost states, and the three causes of a gap.
const SAMPLE: &str = r#"{"record":"usage","contractVersion":"skylark-model-usage-v1","dedupKey":"skylark:trace-a1:1001","event":{"contract_version":"watch-me-working-v1","event_type":"model.usage","timestamp_utc":1789776000,"session_id":"escalation_rpc","trace_id":"trace-a1","run_id":"run-105","span_id":"span-1","source":"core","severity":"info","sequence":1001,"payload":{"backend":"cloud_escalation","model":"sonnet-4-6","servedModel":"sonnet-4-6","promptTokens":1200,"completionTokens":340,"cacheReadTokens":0,"cacheWrite5mTokens":0,"cacheWrite1hTokens":0,"tokenQuality":"exact","latencyMs":812,"costUsd":"0.008700","pricingVersion":"2026-06-24+eae90d17"}}}
{"record":"usage","contractVersion":"skylark-model-usage-v1","dedupKey":"skylark:trace-a2:1002","event":{"contract_version":"watch-me-working-v1","event_type":"model.usage","timestamp_utc":1789776060,"session_id":"router_rpc","trace_id":"trace-a2","run_id":"run-105","span_id":"span-2","source":"core","severity":"info","sequence":1002,"payload":{"backend":"vsr","model":"auto","servedModel":"QuantTrio/Qwen3-Coder-30B-A3B-Instruct-AWQ","promptTokens":512,"completionTokens":256,"cacheReadTokens":null,"cacheWrite5mTokens":null,"cacheWrite1hTokens":null,"tokenQuality":"exact","latencyMs":431,"costUsd":"0.000000","pricingVersion":"2026-06-24+eae90d17"}}}
{"record":"usage","contractVersion":"skylark-model-usage-v1","dedupKey":"skylark:trace-a3:1003","event":{"contract_version":"watch-me-working-v1","event_type":"model.usage","timestamp_utc":1789776120,"session_id":"local_rpc","trace_id":"trace-a3","run_id":"run-106","span_id":"span-3","source":"core","severity":"info","sequence":1003,"payload":{"backend":"local_vllm","model":"QuantTrio/Qwen3-Coder-30B-A3B-Instruct-AWQ","servedModel":null,"promptTokens":300,"completionTokens":400,"cacheReadTokens":null,"cacheWrite5mTokens":null,"cacheWrite1hTokens":null,"tokenQuality":"estimated","latencyMs":96,"costUsd":"0.000000","pricingVersion":"2026-06-24+eae90d17"}}}
{"record":"usage","contractVersion":"skylark-model-usage-v1","dedupKey":"skylark:trace-a4:1004","event":{"contract_version":"watch-me-working-v1","event_type":"model.usage","timestamp_utc":1789776180,"session_id":"npu_lane","trace_id":"trace-a4","run_id":"run-106","span_id":"span-4","source":"core","severity":"info","sequence":1004,"payload":{"backend":"npu","model":"hailo-embed","servedModel":null,"promptTokens":null,"completionTokens":null,"cacheReadTokens":null,"cacheWrite5mTokens":null,"cacheWrite1hTokens":null,"tokenQuality":"absent","latencyMs":7,"costUsd":"0.000000","pricingVersion":"2026-06-24+eae90d17"}}}
{"record":"usage","contractVersion":"skylark-model-usage-v1","dedupKey":"skylark:trace-a5:1005","event":{"contract_version":"watch-me-working-v1","event_type":"model.usage","timestamp_utc":1789776240,"session_id":"escalation_rpc","trace_id":"trace-a5","run_id":"","span_id":"span-5","source":"core","severity":"info","sequence":1005,"payload":{"backend":"cloud_escalation","model":"github-copilot","servedModel":null,"promptTokens":null,"completionTokens":93,"cacheReadTokens":null,"cacheWrite5mTokens":null,"cacheWrite1hTokens":null,"tokenQuality":"absent","latencyMs":1540,"costUsd":null,"pricingVersion":null}}}
{"record":"usage","contractVersion":"skylark-model-usage-v1","dedupKey":"skylark:trace-a6:1006","event":{"contract_version":"watch-me-working-v1","event_type":"model.usage","timestamp_utc":1789776270,"session_id":"escalation_rpc","trace_id":"trace-a6","run_id":"run-107","span_id":"span-6","source":"core","severity":"info","sequence":1006,"payload":{"backend":"cloud_escalation","model":"deepseek-unlisted","servedModel":null,"promptTokens":34,"completionTokens":100,"cacheReadTokens":null,"cacheWrite5mTokens":null,"cacheWrite1hTokens":null,"tokenQuality":"exact","latencyMs":640,"costUsd":null,"pricingVersion":null}}}
{"record":"gap","contractVersion":"skylark-model-usage-v1","cause":"broadcast_lag","lagged":44,"detectedAtUtc":1789776300}
{"record":"gap","contractVersion":"skylark-model-usage-v1","cause":"write_failure","lagged":2,"detectedAtUtc":1789776330}
{"record":"gap","contractVersion":"skylark-model-usage-v1","cause":"shutdown_drain","lagged":1,"detectedAtUtc":1789776360}
"#;

/// Calls that group by the model that served them.
const MODELS: &str = r#"{"record":"usage","contractVersion":"skylark-model-usage-v1","dedupKey":"skylark:trace-m1:1","event":{"event_type":"model.usage","timestamp_utc":1789776000,"session_id":"router_rpc","trace_id":"trace-m1","run_id":"run-1","sequence":1,"payload":{"backend":"vsr","model":"auto","servedModel":"QuantTrio/Qwen3-Coder-30B-A3B-Instruct-AWQ","promptTokens":101,"completionTokens":12,"tokenQuality":"exact","latencyMs":1,"costUsd":"0.000000","pricingVersion":"2026-06-24+eae90d17"}}}
{"record":"usage","contractVersion":"skylark-model-usage-v1","dedupKey":"skylark:trace-m2:2","event":{"event_type":"model.usage","timestamp_utc":1789776001,"session_id":"local_rpc","trace_id":"trace-m2","run_id":"run-1","sequence":2,"payload":{"backend":"local_vllm","model":"QuantTrio/Qwen3-Coder-30B-A3B-Instruct-AWQ","servedModel":null,"promptTokens":40,"completionTokens":5,"tokenQuality":"exact","latencyMs":1,"costUsd":"0.000000","pricingVersion":"2026-06-24+eae90d17"}}}
{"record":"usage","contractVersion":"skylark-model-usage-v1","dedupKey":"skylark:trace-m3:3","event":{"event_type":"model.usage","timestamp_utc":1789776002,"session_id":"router_rpc","trace_id":"trace-m3","run_id":"run-1","sequence":3,"payload":{"backend":"vsr","model":"auto","servedModel":null,"promptTokens":40,"completionTokens":5,"tokenQuality":"exact","latencyMs":1,"costUsd":"0.000000","pricingVersion":"2026-06-24+eae90d17"}}}
{"record":"usage","contractVersion":"skylark-model-usage-v1","dedupKey":"skylark:trace-m4:4","event":{"event_type":"model.usage","timestamp_utc":1789776003,"session_id":"escalation_rpc","trace_id":"trace-m4","run_id":"run-1","sequence":4,"payload":{"backend":"cloud_escalation","model":"VENDOR-haiku-4-5","servedModel":"VENDOR-haiku-4-5-20251001","promptTokens":300,"completionTokens":60,"tokenQuality":"exact","latencyMs":1,"costUsd":"0.000600","pricingVersion":"2026-06-24+eae90d17"}}}
{"record":"usage","contractVersion":"skylark-model-usage-v1","dedupKey":"skylark:trace-m5:5","event":{"event_type":"model.usage","timestamp_utc":1789776004,"session_id":"escalation_rpc","trace_id":"trace-m5","run_id":"run-1","sequence":5,"payload":{"backend":"cloud_escalation","model":"VENDOR-sonnet-4-6","servedModel":"VENDOR-sonnet-4-6","promptTokens":1200,"completionTokens":340,"tokenQuality":"exact","latencyMs":1,"costUsd":"0.008700","pricingVersion":"2026-06-24+eae90d17"}}}
"#;

const MODELS_EXPECTED: [(&str, u64, u64, u64); 4] = [
    ("QuantTrio/Qwen3-Coder-30B-A3B-Instruct-AWQ", 2, 141, 17),
    ("auto", 1, 40, 5),
    ("VENDOR-haiku-4-5-20251001", 1, 300, 60),
    ("VENDOR-sonnet-4-6", 1, 1200, 340),
];

/// `text` with the vendor's models as the vendor calls them.
fn vendored(text: &str) -> String {
    text.replace("VENDOR", &tool_label(Tool::ClaudeCode).to_lowercase())
}

fn cost(record: &SkylarkRecord) -> Option<f64> {
    record.cost_usd.as_deref().map(|raw| raw.parse::<f64>().expect("a number"))
}

/// Every field of a value, with costs as they were written.
fn shown<T: std::fmt::Debug>(value: &T) -> String {
    format!("{value:?}")
}

fn usage_value() -> serde_json::Value {
    serde_json::from_str(
        SAMPLE.lines().find(|l| l.contains("\"record\":\"usage\"")).expect("a usage line"),
    )
    .expect("JSON")
}

fn read(value: &serde_json::Value) -> ExportParse {
    parse_export(&serde_json::to_string(value).expect("re-serialises"))
}

fn sync(
    text: &str,
    seen: &mut StringHashSet,
    cursor: Option<&SourceCursor>,
) -> AdapterParse {
    parse_session_with_cursor(text.as_bytes(), config::DISPLAY_NAME, seen, cursor)
}

fn keys_of(calls: &[ParsedCall]) -> Vec<String> {
    calls.iter().map(|c| c.dedup_key.clone()).collect()
}

#[test]
fn the_conformance_fixture_ingests_with_the_expected_totals() {
    let parse = parse_export(SAMPLE);
    assert_eq!(parse.skipped_lines, 0, "every line must be readable");

    let totals = totals(&parse.records);
    assert_eq!(totals.calls, 6);
    assert_eq!(totals.input_tokens, 2046);
    assert_eq!(totals.output_tokens, 1189);
    assert_eq!(totals.priced, 4);
    assert_eq!(totals.unpriced, 2);

    for backend in config::COVERED_BACKENDS {
        assert!(
            parse.records.iter().any(|r| r.backend == backend),
            "the sample exercises `{backend}`"
        );
    }
    for quality in [TokenQuality::Exact, TokenQuality::Estimated, TokenQuality::Unknown] {
        assert!(
            parse.records.iter().any(|r| r.token_quality == quality),
            "the sample exercises {quality:?}"
        );
    }
}

#[test]
fn a_null_cost_record_is_not_counted_as_zero() {
    let parse = parse_export(SAMPLE);

    let unpriced: Vec<&SkylarkRecord> =
        parse.records.iter().filter(|r| r.cost_usd.is_none()).collect();
    assert_eq!(unpriced.len(), 2, "two unpriceable calls");
    assert!(
        unpriced.iter().any(|r| r.prompt_tokens.is_some()),
        "an unpriceable call keeps its tokens: not priced is not not used"
    );
    for row in &unpriced {
        assert!(
            row.pricing_version.is_none(),
            "no table produced a figure, so no table is named"
        );
    }

    let real_zeros: Vec<&SkylarkRecord> =
        parse.records.iter().filter(|r| cost(r) == Some(0.0)).collect();
    assert_eq!(real_zeros.len(), 3, "three self-hosted lanes bill nothing per token");
    for row in &real_zeros {
        assert!(
            row.pricing_version.is_some(),
            "a zero is a recorded rate, so it names the table that recorded it"
        );
    }

    let total: f64 = parse.records.iter().filter_map(cost).sum();
    assert!(
        (total - 0.0087).abs() < 1e-9,
        "only the one priced non-zero call contributes money; got {total}"
    );
}

#[test]
fn the_dedup_derivation_matches_the_fixtures_pinned_keys() {
    let parse = parse_export(SAMPLE);
    assert!(!parse.records.is_empty());
    for record in &parse.records {
        let (trace_id, sequence) = record
            .dedup_key
            .strip_prefix("skylark:")
            .and_then(|rest| rest.rsplit_once(':'))
            .expect("the key is `skylark:<trace_id>:<sequence>`");
        let sequence: u64 = sequence.parse().expect("the sequence is a number");
        assert_eq!(
            record.dedup_key,
            dedup_key(trace_id, sequence),
            "the derivation must be the producer's, byte for byte"
        );
    }

    let mut value = usage_value();
    value["dedupKey"] = serde_json::Value::from("skylark:something-else:1");
    let tampered = serde_json::to_string(&value).expect("re-serialises");
    assert_eq!(parse_export(&tampered).skipped_lines, 1);
}

#[test]
fn a_gap_marker_is_surfaced_rather_than_swallowed() {
    let parse = parse_export(SAMPLE);
    assert_eq!(parse.lagged_rows, 47, "44 to broadcast lag, 2 to failed appends, 1 to the drain");
    assert_eq!(parse.skipped_lines, 0, "a gap line is readable, not unreadable");
}

#[test]
fn a_truncated_final_line_costs_only_itself() {
    let mut text = SAMPLE.to_string();
    text.push_str("{\"record\":\"usage\",\"contractVer");
    let parse = parse_export(&text);
    assert_eq!(parse.records.len(), 6, "every intact record still reads");
    assert_eq!(parse.skipped_lines, 1);
    assert_eq!(parse.lagged_rows, 47);

    let mut seen = StringHashSet::new();
    let parsed = sync(&text, &mut seen, None);
    assert_eq!(parsed.calls.len(), 6);
    let cursor = parsed.cursor.expect("a cursor");
    assert_eq!(
        cursor.offset,
        SAMPLE.len() as u64,
        "the cursor stops at the last newline-terminated line"
    );
}

#[test]
fn an_unknown_contract_version_is_skipped_not_guessed_at() {
    let line = SAMPLE
        .lines()
        .find(|l| l.contains("\"record\":\"usage\""))
        .expect("a usage line")
        .replace(config::EXPORT_CONTRACT_VERSION, "skylark-model-usage-v99");
    let parse = parse_export(&line);
    assert!(parse.records.is_empty());
    assert_eq!(parse.skipped_lines, 1);
}

#[test]
fn a_resumed_parse_reads_only_what_was_appended() {
    let first_three: String = SAMPLE.lines().take(3).map(|l| format!("{l}\n")).collect();

    let mut seen = StringHashSet::new();
    let first = sync(&first_three, &mut seen, None);
    assert_eq!(first.calls.len(), 3);
    assert_eq!(first.resumed_files, 0);
    let cursor = first.cursor.expect("a cursor");

    let mut seen = StringHashSet::new();
    let second = sync(SAMPLE, &mut seen, Some(&cursor));
    assert_eq!(second.resumed_files, 1);
    assert_eq!(
        second.calls.len(),
        3,
        "only the three appended usage rows, not the whole file again"
    );
}

#[test]
fn a_rewritten_tail_invalidates_the_cursor() {
    let mut seen = StringHashSet::new();
    let first = sync(SAMPLE, &mut seen, None);
    let cursor = first.cursor.expect("a cursor");

    let rewritten = SAMPLE.replace(
        r#""lagged":1,"detectedAtUtc":1789776360"#,
        r#""lagged":7,"detectedAtUtc":1789776360"#,
    );
    assert_eq!(rewritten.len(), SAMPLE.len(), "same length, different bytes");
    assert_ne!(rewritten, SAMPLE);

    let mut seen = StringHashSet::new();
    let second = sync(&rewritten, &mut seen, Some(&cursor));
    assert_eq!(second.resumed_files, 0, "the probe must reject the stale cursor");
    assert_eq!(second.calls.len(), 6, "and the file is read whole");
}

#[test]
fn a_record_seen_twice_is_counted_once() {
    let doubled = format!("{SAMPLE}{SAMPLE}");
    let mut seen = StringHashSet::new();
    let calls = parse_session(doubled.as_bytes(), config::DISPLAY_NAME, &mut seen);
    assert_eq!(calls.len(), 6, "twelve lines, six calls");
}

#[test]
fn a_run_scoped_record_is_attributed_to_its_run() {
    let parse = parse_export(SAMPLE);
    let vsr = parse.records.iter().find(|r| r.backend == "vsr").expect("a Semantic Router call");
    assert_eq!(vsr.session_id, "run-105");

    let copilot =
        parse.records.iter().find(|r| r.model == "github-copilot").expect("a Copilot call");
    assert_eq!(
        copilot.session_id, "escalation_rpc",
        "a call not scoped to a run falls back to the emitting site"
    );
}

#[test]
fn an_auto_routed_record_is_attributed_to_the_model_that_served_it() {
    let parse = parse_export(SAMPLE);
    let routed = parse.records.iter().find(|r| r.model == "auto").expect("the auto-routed row");
    assert_eq!(
        routed.served_model.as_deref(),
        Some("QuantTrio/Qwen3-Coder-30B-A3B-Instruct-AWQ")
    );
    let call = to_parsed_call(routed, config::DISPLAY_NAME);
    assert_eq!(call.model, "QuantTrio/Qwen3-Coder-30B-A3B-Instruct-AWQ");

    let unrouted = parse
        .records
        .iter()
        .find(|r| r.served_model.is_none())
        .expect("a row no response named a model for");
    assert_eq!(
        to_parsed_call(unrouted, config::DISPLAY_NAME).model,
        unrouted.model,
        "with no served model the requested one stands"
    );
}

#[test]
fn a_served_model_is_optional_and_typed() {
    let line =
        SAMPLE.lines().find(|l| l.contains("\"model\":\"auto\"")).expect("the auto-routed line");
    let mut value: serde_json::Value = serde_json::from_str(line).expect("JSON");
    value["event"]["payload"].as_object_mut().expect("payload").remove("servedModel");
    let legacy = read(&value);
    assert_eq!(legacy.skipped_lines, 0);
    assert_eq!(legacy.records[0].served_model, None);

    value["event"]["payload"]["servedModel"] = serde_json::Value::from(7);
    let wrong = read(&value);
    assert_eq!(wrong.skipped_lines, 1, "a numeric servedModel is not a model");
}

#[test]
fn a_record_converts_to_a_call_row_without_inventing_a_cost() {
    let parse = parse_export(SAMPLE);
    let unpriced = parse
        .records
        .iter()
        .find(|r| r.cost_usd.is_none() && r.prompt_tokens.is_some())
        .expect("an unpriceable call with tokens");
    let call = to_parsed_call(unpriced, config::DISPLAY_NAME);
    assert_eq!(call.tool, config::TOOL_ID);
    assert_eq!(
        call.cost_usd.parse::<f64>().expect("a number"),
        0.0,
        "an unpriceable call adds no money to a spend total"
    );
    assert_eq!(call.input_tokens, unpriced.prompt_tokens.unwrap_or(0));
    assert_eq!(call.dedup_key, unpriced.dedup_key, "the producer's key, verbatim");
    assert_eq!(call.timestamp_quality, TimestampQuality::Exact);
}

#[test]
fn a_line_that_is_not_json_at_all_costs_only_itself() {
    let text = format!("not json\n{SAMPLE}");
    let parse = parse_export(&text);
    assert_eq!(parse.records.len(), 6);
    assert_eq!(parse.skipped_lines, 1);
}

#[test]
fn a_cost_without_a_pricing_version_is_refused() {
    let mut value = usage_value();
    value["event"]["payload"]["pricingVersion"] = serde_json::Value::Null;
    assert_eq!(
        read(&value).skipped_lines,
        1,
        "a figure without the table that produced it asserts a provenance it does not have"
    );
}

#[test]
fn a_non_exact_row_carrying_a_figure_is_refused_while_its_recorded_zero_is_kept() {
    let zero_line = SAMPLE
        .lines()
        .find(|l| {
            l.contains("\"tokenQuality\":\"absent\"") && l.contains("\"costUsd\":\"0.000000\"")
        })
        .expect("a non-exact row priced at a recorded zero");
    let parsed = parse_export(zero_line);
    assert_eq!(parsed.skipped_lines, 0, "a recorded zero is a rate that actually applied");
    assert_eq!(cost(&parsed.records[0]), Some(0.0));

    let mut value: serde_json::Value = serde_json::from_str(zero_line).expect("JSON");
    value["event"]["payload"]["costUsd"] = serde_json::Value::from("99.000000");
    let parsed = read(&value);
    assert_eq!(
        parsed.skipped_lines, 1,
        "a count nobody reported cannot be multiplied into money"
    );
    assert!(parsed.records.is_empty());

    value["event"]["payload"]["tokenQuality"] = serde_json::Value::from("estimated");
    assert_eq!(read(&value).skipped_lines, 1, "an estimate least of all");
}

#[test]
fn the_shared_model_fixture_groups_per_model_as_the_producers_card_does() {
    let parse = parse_export(&vendored(MODELS));
    assert_eq!(parse.skipped_lines, 0, "every line must be readable");
    let mut groups: BTreeMap<String, (u64, u64, u64)> = BTreeMap::new();
    for record in &parse.records {
        let call = to_parsed_call(record, config::DISPLAY_NAME);
        let entry = groups.entry(call.model).or_default();
        entry.0 += 1;
        entry.1 += call.input_tokens;
        entry.2 += call.output_tokens;
    }
    let actual: Vec<(String, u64, u64, u64)> = groups
        .iter()
        .map(|(key, (calls, input, output))| (key.clone(), *calls, *input, *output))
        .collect();
    let expected: Vec<(String, u64, u64, u64)> = MODELS_EXPECTED
        .iter()
        .map(|(key, calls, input, output)| (vendored(key), *calls, *input, *output))
        .collect();
    assert_eq!(actual, expected);
}

#[test]
fn a_usage_line_reads_field_by_field() {
    let parse = parse_export(SAMPLE);
    let expected = SkylarkRecord {
        dedup_key: "skylark:trace-a1:1001".to_string(),
        backend: "cloud_escalation".to_string(),
        model: "sonnet-4-6".to_string(),
        served_model: Some("sonnet-4-6".to_string()),
        prompt_tokens: Some(1200),
        completion_tokens: Some(340),
        token_quality: TokenQuality::Exact,
        latency_ms: 812,
        cost_usd: Some("0.008700".to_string()),
        pricing_version: Some("2026-06-24+eae90d17".to_string()),
        timestamp: Some(1789776000),
        session_id: "run-105".to_string(),
    };
    assert_eq!(shown(&parse.records[0]), shown(&expected));
    let copilot = &parse.records[4];
    assert_eq!(copilot.prompt_tokens, None);
    assert_eq!(copilot.completion_tokens, Some(93), "the half that was reported is kept");
    assert_eq!(copilot.token_quality, TokenQuality::Unknown);
}

#[test]
fn a_call_row_reads_field_by_field() {
    let parse = parse_export(SAMPLE);
    let call = to_parsed_call(&parse.records[1], "a project");
    assert_eq!(call.tool, "skylark");
    assert_eq!(call.model, "QuantTrio/Qwen3-Coder-30B-A3B-Instruct-AWQ");
    assert_eq!(call.input_tokens, 512);
    assert_eq!(call.output_tokens, 256);
    assert_eq!(call.cost_usd, "0.000000");
    assert_eq!(call.timestamp, Some(1789776060));
    assert_eq!(call.speed, Speed::Standard);
    assert_eq!(call.dedup_key, "skylark:trace-a2:1002");
    assert_eq!(call.session_id, "run-105");
    assert_eq!(call.project, "a project");
    assert_eq!(call.elapsed_ms, Some(431));
    assert_eq!(call.interaction_mode, InteractionMode::Agent);
    assert_eq!(call.token_quality, TokenQuality::Exact);
    assert_eq!(call.timestamp_quality, TimestampQuality::Exact);

    let npu = to_parsed_call(&parse.records[3], "a project");
    assert_eq!((npu.input_tokens, npu.output_tokens), (0, 0));
}

#[test]
fn a_missing_or_mistyped_field_makes_the_line_unreadable() {
    for key in ["record", "contractVersion", "dedupKey", "event"] {
        let mut value = usage_value();
        value.as_object_mut().expect("object").remove(key);
        assert_eq!(read(&value).skipped_lines, 1, "without {key}");
    }
    for key in ["event_type", "timestamp_utc", "session_id", "trace_id", "run_id", "sequence", "payload"]
    {
        let mut value = usage_value();
        value["event"].as_object_mut().expect("object").remove(key);
        assert_eq!(read(&value).skipped_lines, 1, "without event.{key}");
        let mut value = usage_value();
        value["event"][key] = serde_json::Value::from(true);
        assert_eq!(read(&value).skipped_lines, 1, "event.{key} is true");
    }
    for key in [
        "backend",
        "model",
        "promptTokens",
        "completionTokens",
        "tokenQuality",
        "latencyMs",
        "costUsd",
        "pricingVersion",
    ] {
        let mut value = usage_value();
        value["event"]["payload"].as_object_mut().expect("object").remove(key);
        assert_eq!(read(&value).skipped_lines, 1, "without payload.{key}");
        let mut value = usage_value();
        value["event"]["payload"][key] = serde_json::Value::from(true);
        assert_eq!(read(&value).skipped_lines, 1, "payload.{key} is true");
    }
    for (key, text) in [("record", "other"), ("contractVersion", "skylark-model-usage-v2")] {
        let mut value = usage_value();
        value[key] = serde_json::Value::from(text);
        assert_eq!(read(&value).skipped_lines, 1, "{key} is {text}");
    }
    let mut value = usage_value();
    value["event"]["event_type"] = serde_json::Value::from("model.other");
    assert_eq!(read(&value).skipped_lines, 1);
    let mut value = usage_value();
    value["event"]["payload"]["backend"] = serde_json::Value::from("remote_vllm");
    assert_eq!(read(&value).skipped_lines, 1, "no such backend is covered");
    let mut value = usage_value();
    value["event"]["payload"]["tokenQuality"] = serde_json::Value::from("guessed");
    assert_eq!(read(&value).skipped_lines, 1);
    let mut value = usage_value();
    value["event"]["payload"]["latencyMs"] = serde_json::Value::from(-1);
    assert_eq!(read(&value).skipped_lines, 1, "a negative number is no count");
    let mut value = usage_value();
    value["event"]["payload"]["latencyMs"] = serde_json::Value::from(1.0);
    assert_eq!(read(&value).skipped_lines, 1, "a fraction is no count");
    let mut value = usage_value();
    value["event"]["payload"]["promptTokens"] = serde_json::Value::from(1.5);
    assert_eq!(read(&value).skipped_lines, 1);
    let mut value = usage_value();
    value["event"]["payload"]["latencyMs"] = serde_json::Value::from(u64::MAX);
    assert_eq!(read(&value).records[0].latency_ms, u64::MAX);
    assert_eq!(parse_export("[]\n7\nnull\n\"usage\"\n").skipped_lines, 4);
}

#[test]
fn a_version_without_a_cost_is_refused() {
    let mut value = usage_value();
    value["event"]["payload"]["costUsd"] = serde_json::Value::Null;
    assert_eq!(read(&value).skipped_lines, 1);
    value["event"]["payload"]["pricingVersion"] = serde_json::Value::Null;
    assert_eq!(read(&value).skipped_lines, 0);
    assert_eq!(read(&value).records[0].cost_usd, None);
}

#[test]
fn a_cost_is_read_as_a_decimal_number_with_space_around_it() {
    for (raw, kept) in [
        (" 0.50 ", "0.50"),
        ("\t1e-3\n", "1e-3"),
        ("\u{a0}2\u{3000}", "2"),
        ("-0.25", "-0.25"),
        ("inf", "inf"),
        ("NaN", "NaN"),
    ] {
        let mut value = usage_value();
        value["event"]["payload"]["costUsd"] = serde_json::Value::from(raw);
        let parse = read(&value);
        assert_eq!(parse.skipped_lines, 0, "{raw:?}");
        assert_eq!(parse.records[0].cost_usd.as_deref(), Some(kept));
    }
    for raw in ["", " ", "free", "$1", "1,5", "0x10", "1 2", "--1", "."] {
        let mut value = usage_value();
        value["event"]["payload"]["costUsd"] = serde_json::Value::from(raw);
        assert_eq!(read(&value).skipped_lines, 1, "{raw:?}");
    }
    let mut value = usage_value();
    value["event"]["payload"]["costUsd"] = serde_json::Value::from(0.5);
    assert_eq!(read(&value).skipped_lines, 1, "a JSON number is no cost");
}

#[test]
fn what_rounds_to_zero_is_a_recorded_zero() {
    for (raw, kept) in [
        ("0", true),
        ("-0.0", true),
        ("0e99", true),
        ("1e-400", true),
        ("1e-300", false),
        ("-1e-400", true),
        ("nan", false),
        ("infinity", false),
    ] {
        let mut value = usage_value();
        value["event"]["payload"]["tokenQuality"] = serde_json::Value::from("estimated");
        value["event"]["payload"]["costUsd"] = serde_json::Value::from(raw);
        let parse = read(&value);
        assert_eq!(parse.records.len(), usize::from(kept), "{raw}");
        assert_eq!(kept, raw.parse::<f64>().expect("a number") == 0.0);
    }
}

#[test]
fn a_timestamp_beyond_the_calendar_is_no_instant() {
    for (secs, stamp) in [
        (0u64, Some(0i64)),
        (1789776000, Some(1789776000)),
        (8_210_266_876_799, Some(8_210_266_876_799)),
        (8_210_266_876_800, None),
        (i64::MAX as u64, None),
    ] {
        let mut value = usage_value();
        value["event"]["timestamp_utc"] = serde_json::Value::from(secs);
        let parse = read(&value);
        assert_eq!(parse.records[0].timestamp, stamp);
        assert_eq!(
            Utc.timestamp_opt(secs as i64, 0).single().map(|t| t.timestamp()),
            stamp
        );
    }
    let mut value = usage_value();
    value["event"]["timestamp_utc"] = serde_json::Value::from(i64::MAX as u64 + 1);
    assert_eq!(read(&value).skipped_lines, 1, "and one that no i64 holds is no timestamp");
}

#[test]
fn the_last_of_two_members_of_one_name_is_read() {
    let line = SAMPLE.lines().next().expect("a line");
    let doubled = line.replace("\"latencyMs\":812", "\"latencyMs\":811,\"latencyMs\":812");
    assert_eq!(parse_export(&doubled).records[0].latency_ms, 812);
}

#[test]
fn escapes_and_other_scripts_are_read() {
    let line = SAMPLE
        .lines()
        .next()
        .expect("a line")
        .replace("\"model\":\"sonnet-4-6\"", "\"model\":\"\\u00e9\\n\\\"\u{65e5}\"");
    assert_eq!(parse_export(&line).records[0].model, "\u{e9}\n\"\u{65e5}");
}

#[test]
fn carriage_returns_after_a_value_make_no_difference() {
    for text in ["7", "{\"a\":[1]}", "\"x\"", "null", " true ", "", "{", "\"x", "-", "1.", "[1,"] {
        let returns = format!("{text}\r\r");
        let (with, without) = (parse_json(&returns), parse_json(text));
        assert_eq!(format!("{with:?}"), format!("{without:?}"), "{text:?}");
    }
}

#[test]
fn a_gap_without_a_count_is_unreadable() {
    let parse = parse_export(
        r#"{"record":"gap","contractVersion":"skylark-model-usage-v1"}
{"record":"gap","contractVersion":"skylark-model-usage-v1","lagged":-1}
{"record":"gap","contractVersion":"skylark-model-usage-v1","lagged":"3"}
{"record":"gap","contractVersion":"skylark-model-usage-v1","lagged":0}"#,
    );
    assert_eq!(parse.skipped_lines, 3);
    assert_eq!(parse.lagged_rows, 0);
}

#[test]
fn lost_rows_are_counted_as_far_as_they_can_be() {
    let parse = parse_export(
        r#"{"record":"gap","contractVersion":"skylark-model-usage-v1","lagged":18446744073709551615}
{"record":"gap","contractVersion":"skylark-model-usage-v1","lagged":5}"#,
    );
    assert_eq!(parse.lagged_rows, u64::MAX);
    assert_eq!(parse.skipped_lines, 0);
}

#[test]
fn blank_lines_are_neither_read_nor_skipped() {
    let parse = parse_export("\n \t\n\r\n\u{2003}\n");
    assert_eq!(shown(&parse), shown(&ExportParse::default()));
    let spaced = SAMPLE.replace('\n', "\r\n\n");
    assert_eq!(shown(&parse_export(&spaced)), shown(&parse_export(SAMPLE)));
}

#[test]
fn appended_text_adds_up() {
    let (head, tail) = SAMPLE.split_at(SAMPLE.find("\n{\"record\":\"gap\"").expect("a gap") + 1);
    let (a, b, all) = (parse_export(head), parse_export(tail), parse_export(SAMPLE));
    let mut records = a.records.clone();
    records.extend(b.records.clone());
    assert_eq!(shown(&records), shown(&all.records));
    assert_eq!(a.lagged_rows + b.lagged_rows, all.lagged_rows);
    assert_eq!(a.skipped_lines + b.skipped_lines, all.skipped_lines);
}

#[test]
fn the_key_is_trace_and_sequence() {
    assert_eq!(dedup_key("abc", 0), "skylark:abc:0");
    assert_eq!(dedup_key("", u64::MAX), "skylark::18446744073709551615");
    assert_eq!(dedup_key("a:b", 1005), "skylark:a:b:1005");
    assert_ne!(dedup_key("a:1", 2), dedup_key("a", 12));
}

#[test]
fn an_export_grows_line_by_line() {
    let mut parse = ExportParse::default();
    for line in SAMPLE.lines() {
        parse.add(parse_line(line));
    }
    parse.add(Line::Unreadable);
    parse.add(Line::Gap(3));
    assert_eq!(shown(&parse.records), shown(&parse_export(SAMPLE).records));
    assert_eq!(parse.skipped_lines, 1);
    assert_eq!(parse.lagged_rows, 50);
}

#[test]
fn a_line_is_what_its_value_is() {
    let lines: Vec<&str> = SAMPLE.lines().collect();
    let value = parse_json(lines[0]).expect("JSON");
    let record = parse_usage(&value).expect("a usage record");
    assert!(matches!(classify(&value), Line::Usage(r) if shown(&*r) == shown(&record)));
    let gap = parse_json(lines[6]).expect("JSON");
    assert!(matches!(classify(&gap), Line::Gap(44)));
    assert!(parse_usage(&gap).is_none());
    assert!(matches!(parse_line("{"), Line::Unreadable));
    assert!(matches!(classify(&Json::Null), Line::Unreadable));
}

#[test]
fn plain_json_holds_what_the_text_says() {
    let value = parse_json(r#" {"a":[null,true,-1,2,"x"],"b":{}} "#).expect("JSON");
    assert!(value.is_object());
    let Some(Json::List(items)) = value.get("a") else {
        panic!("a list");
    };
    assert!(items[0].is_null());
    assert!(matches!(items[1], Json::Bool(true)));
    assert_eq!(items[2].as_u64(), None);
    assert_eq!(items[3].as_u64(), Some(2));
    assert_eq!(items[4].as_str(), Some("x"));
    assert!(value.get("b").expect("b").is_object());
    assert!(value.get("c").is_none());
    assert!(items[4].get("a").is_none());
    for text in ["", "{", "{}x", "nul", "\"\u{1}\"", "{'a':1}"] {
        assert!(parse_json(text).is_none(), "{text:?}");
    }
}

#[test]
fn a_nullable_field_is_missing_null_or_typed() {
    let seven = Json::Number(Some(7));
    let minus = Json::Number(None);
    let text = Json::Text("x".to_string());
    assert_eq!(as_opt_u64(None), None);
    assert_eq!(as_opt_u64(Some(&Json::Null)), Some(None));
    assert_eq!(as_opt_u64(Some(&seven)), Some(Some(7)));
    assert_eq!(as_opt_u64(Some(&minus)), None);
    assert_eq!(as_opt_u64(Some(&text)), None);
    assert_eq!(as_opt_str(None), None);
    assert_eq!(as_opt_str(Some(&Json::Null)), Some(None));
    assert_eq!(as_opt_str(Some(&text)), Some(Some("x")));
    assert_eq!(as_opt_str(Some(&seven)), None);
}

#[test]
fn totals_of_nothing_are_zero() {
    assert_eq!(
        totals(&[]),
        Totals { calls: 0, input_tokens: 0, output_tokens: 0, priced: 0, unpriced: 0 }
    );
}

#[test]
fn resuming_in_steps_reads_what_one_reading_reads() {
    let mut whole = StringHashSet::new();
    let all = keys_of(&parse_session(SAMPLE.as_bytes(), "p", &mut whole));
    for cut in 0..=SAMPLE.len() {
        let mut seen = StringHashSet::new();
        let bytes = SAMPLE.as_bytes();
        let first = parse_session_with_cursor(&bytes[..cut], "p", &mut seen, None);
        let second = parse_session_with_cursor(bytes, "p", &mut seen, first.cursor.as_ref());
        let mut keys = keys_of(&first.calls);
        keys.extend(keys_of(&second.calls));
        assert_eq!(keys, all, "cut at {cut}");
        let end = second.cursor.expect("a cursor").offset;
        assert_eq!(end, SAMPLE.len() as u64);
    }
}

#[test]
fn a_second_reading_yields_nothing_new() {
    let mut seen = StringHashSet::new();
    assert_eq!(parse_session(SAMPLE.as_bytes(), "p", &mut seen).len(), 6);
    assert_eq!(parse_session(SAMPLE.as_bytes(), "p", &mut seen).len(), 0);
    assert!(seen.contains("skylark:trace-a6:1006"));
    assert!(!seen.contains("skylark:trace-a7:1007"));
}

#[test]
fn a_call_that_was_seen_elsewhere_is_left_out() {
    let mut seen = StringHashSet::new();
    seen.insert("skylark:trace-a5:1005".to_string());
    let calls = parse_session(SAMPLE.as_bytes(), "p", &mut seen);
    assert_eq!(calls.len(), 5);
    assert!(calls.iter().all(|c| c.dedup_key != "skylark:trace-a5:1005"));
}

#[test]
fn an_unfinished_line_is_read_once_it_is_finished() {
    let line = SAMPLE.lines().next().expect("a line");
    let mut seen = StringHashSet::new();
    let first = sync(line, &mut seen, None);
    assert!(first.calls.is_empty());
    let cursor = first.cursor.expect("a cursor");
    assert_eq!(cursor.offset, 0);
    assert_eq!(cursor.probe, fnv1a64_hex(&[]));
    let second = sync(&format!("{line}\n"), &mut seen, Some(&cursor));
    assert_eq!(second.calls.len(), 1);
    assert_eq!(second.resumed_files, 0, "there was nothing to resume past");
}

#[test]
fn an_unreadable_line_of_a_log_is_passed_over() {
    let mut bytes = b"not json\n\xff\xfe\n\n \r\n".to_vec();
    bytes.extend(SAMPLE.replace('\n', "\r\r\n").as_bytes());
    let mut seen = StringHashSet::new();
    let parse = parse_session_with_cursor(&bytes, "p", &mut seen, None);
    assert_eq!(parse.calls.len(), 6);
    assert_eq!(parse.cursor.expect("a cursor").offset, bytes.len() as u64);
}

#[test]
fn bytes_that_are_not_unicode_become_replacement_characters() {
    let line = SAMPLE.lines().next().expect("a line").replace("run-105", "run-#");
    let mut bytes = line.into_bytes();
    let at = bytes.iter().position(|b| *b == b'#').expect("the mark");
    bytes[at] = 0xff;
    bytes.push(b'\n');
    let mut seen = StringHashSet::new();
    let calls = parse_session(&bytes, "p", &mut seen);
    assert_eq!(calls[0].session_id, "run-\u{fffd}");
}

#[test]
fn a_cursor_is_held_to_its_version_length_and_probe() {
    let mut seen = StringHashSet::new();
    let cursor = sync(SAMPLE, &mut seen, None).cursor.expect("a cursor");
    assert_eq!(cursor.v, PARSE_VERSION);
    let tail = &SAMPLE.as_bytes()[SAMPLE.len() - PROBE_BYTES as usize..];
    assert_eq!(cursor.probe, fnv1a64_hex(tail));

    let mut seen = StringHashSet::new();
    assert_eq!(sync(SAMPLE, &mut seen, Some(&cursor)).resumed_files, 1);
    let other_version = SourceCursor { v: "0".to_string(), ..cursor.clone() };
    assert_eq!(sync(SAMPLE, &mut seen, Some(&other_version)).resumed_files, 0);
    let beyond = SourceCursor { offset: cursor.offset + 1, ..cursor.clone() };
    assert_eq!(sync(SAMPLE, &mut seen, Some(&beyond)).resumed_files, 0);
    let other_probe = SourceCursor { probe: "0".repeat(16), ..cursor.clone() };
    assert_eq!(sync(SAMPLE, &mut seen, Some(&other_probe)).resumed_files, 0);
    let start = SourceCursor { offset: 0, ..cursor.clone() };
    assert_eq!(sync(SAMPLE, &mut seen, Some(&start)).resumed_files, 0);
}

#[test]
fn a_cursor_is_judged_before_its_probe_is_read() {
    let cursor =
        SourceCursor { v: PARSE_VERSION.to_string(), offset: 10, probe: "p".to_string() };
    assert!(candidate(&cursor, Some(10)));
    assert!(!candidate(&cursor, Some(9)));
    assert!(!candidate(&cursor, None));
    assert_eq!(resume_offset(Some(&cursor), Some(10), Some("p")), 10);
    assert_eq!(resume_offset(Some(&cursor), Some(10), Some("q")), 0);
    assert_eq!(resume_offset(Some(&cursor), Some(10), None), 0);
    assert_eq!(resume_offset(Some(&cursor), Some(9), Some("p")), 0);
    assert_eq!(resume_offset(None, Some(10), Some("p")), 0);
}

#[test]
fn the_probe_covers_what_stands_before_the_offset() {
    assert_eq!(probe_window(0), (0, 0));
    assert_eq!(probe_window(255), (0, 255));
    assert_eq!(probe_window(256), (0, 256));
    assert_eq!(probe_window(1000), (744, 256));
    assert_eq!(probe_hash(0, None), Some("cbf29ce484222325".to_string()));
    assert_eq!(probe_hash(3, None), None);
    assert_eq!(probe_hash(1, Some(b"a")), Some("af63dc4c8601ec8c".to_string()));
}

#[test]
fn a_change_far_before_the_offset_goes_unnoticed_and_one_near_it_does_not() {
    let mut seen = StringHashSet::new();
    let bytes = SAMPLE.as_bytes().to_vec();
    let cursor = parse_session_with_cursor(&bytes, "p", &mut seen, None).cursor.expect("a cursor");
    for back in 1..=PROBE_BYTES as usize {
        let mut other = bytes.clone();
        let at = other.len() - back;
        other[at] ^= 1;
        let again = parse_session_with_cursor(&other, "p", &mut seen, Some(&cursor));
        assert_eq!(again.resumed_files, 0, "{back} bytes before the end");
    }
    let mut other = bytes.clone();
    other[0] ^= 1;
    assert_eq!(
        parse_session_with_cursor(&other, "p", &mut seen, Some(&cursor)).resumed_files,
        1
    );
}

#[test]
fn a_log_is_read_from_where_it_starts() {
    let mut seen = StringHashSet::new();
    let log = parse_log(SAMPLE.as_bytes(), 700, "p", &mut seen);
    assert_eq!(log.calls.len(), 6);
    assert_eq!(log.offset, 700 + SAMPLE.len() as u64);
    let offset = log.offset;
    let parse = finish(700, log, Some("probe".to_string()));
    assert_eq!(parse.resumed_files, 1);
    assert_eq!(
        parse.cursor,
        Some(SourceCursor {
            v: PARSE_VERSION.to_string(),
            offset,
            probe: "probe".to_string(),
        })
    );
    let nothing = parse_log(b"", 0, "p", &mut seen);
    let parse = finish(0, nothing, None);
    assert!(parse.calls.is_empty() && parse.cursor.is_none() && parse.resumed_files == 0);
    let default = AdapterParse::default();
    assert!(default.calls.is_empty() && default.cursor.is_none() && default.resumed_files == 0);
}

#[test]
fn a_log_holds_the_records_of_its_text() {
    let accented = SAMPLE.replace("run-107", "run-\u{e9}\u{65e5}\u{1f600}");
    for text in [
        accented.clone(),
        accented.replace('\n', "\r\n"),
        accented.replace('\n', "\r\r\r\n"),
        format!("\n\r\r\n{accented}\n"),
    ] {
        let records = parse_export(&text).records;
        assert_eq!(records.len(), 6);
        let mut seen = StringHashSet::new();
        let unfinished = MODELS.lines().next().expect("a line");
        let contents = format!("{text}{unfinished}");
        let calls = parse_session(contents.as_bytes(), "p", &mut seen);
        assert_eq!(calls.len(), records.len());
        for (call, record) in calls.iter().zip(&records) {
            assert_eq!(shown(call), shown(&to_parsed_call(record, "p")));
        }
    }
}

#[test]
fn an_unchanged_file_yields_nothing() {
    for text in [SAMPLE.to_string(), format!("{SAMPLE}half a li"), "half".to_string()] {
        let mut seen = StringHashSet::new();
        let first = sync(&text, &mut seen, None).cursor.expect("a cursor");
        let known = seen.len();
        let again = sync(&text, &mut seen, Some(&first));
        assert!(again.calls.is_empty());
        assert_eq!(again.cursor, Some(first.clone()));
        assert_eq!(again.resumed_files, usize::from(first.offset > 0));
        assert_eq!(seen.len(), known);
        let mut fresh = StringHashSet::new();
        assert!(sync(&text, &mut fresh, Some(&first)).calls.is_empty());
    }
}

#[test]
fn a_sync_in_steps_is_a_sync_of_the_file() {
    let bytes = SAMPLE.as_bytes();
    let window = |offset: u64| {
        let (from, len) = probe_window(offset);
        &bytes[from as usize..from as usize + len]
    };
    let mut seen = StringHashSet::new();
    let half = SAMPLE.find("\n{\"record\":\"gap\"").expect("a gap") + 10;
    let cursor = sync(&SAMPLE[..half], &mut seen, None).cursor.expect("a cursor");
    let stale = SourceCursor { probe: "0".repeat(16), ..cursor.clone() };
    for stored in [None, Some(&cursor), Some(&stale)] {
        let len = Some(bytes.len() as u64);
        let probe = stored
            .filter(|c| candidate(c, len))
            .and_then(|c| probe_hash(c.offset, Some(window(c.offset))));
        let start = resume_offset(stored, len, probe.as_deref());
        let mut seen = StringHashSet::new();
        let log = parse_log(&bytes[start as usize..], start, config::DISPLAY_NAME, &mut seen);
        let next = probe_hash(log.offset, Some(window(log.offset)));
        let steps = finish(start, log, next);

        let mut seen = StringHashSet::new();
        let whole = sync(SAMPLE, &mut seen, stored);
        assert_eq!(shown(&steps.calls), shown(&whole.calls));
        assert_eq!(steps.cursor, whole.cursor);
        assert_eq!(steps.resumed_files, whole.resumed_files);
    }
}
