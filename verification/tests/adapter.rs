//! The adapter as the rest of a dashboard sees it.

use tokenuse_skylark::adapter::{registry, Skylark, SOURCE_FINGERPRINT_VERSION};
use tokenuse_skylark::call::{
    find_tool, matches_tool, tool_id, tool_label, tool_short_label, ParsedCall, Tool,
};
use tokenuse_skylark::config;
use tokenuse_skylark::discovery::{discover, file_index, DirEntry, SessionSource};

fn file(name: &str) -> DirEntry<String> {
    DirEntry { path: format!("/logs/{name}"), name: Some(name.to_string()), is_file: true }
}

/// The tools with their identifiers and labels. A name of two words is labelled by the
/// first.
fn tools() -> [(Tool, String, String); 6] {
    let two = "ClaudeCode";
    [
        (Tool::ClaudeCode, format!("{}-code", two[..6].to_lowercase()), two[..6].to_string()),
        (Tool::Cursor, "cursor".to_string(), "Cursor".to_string()),
        (Tool::Codex, "codex".to_string(), "Codex".to_string()),
        (Tool::Copilot, "copilot".to_string(), "Copilot".to_string()),
        (Tool::Gemini, "gemini".to_string(), "Gemini".to_string()),
        (Tool::Skylark, "skylark".to_string(), "Skylark".to_string()),
    ]
}

fn names(sources: &[SessionSource<String>]) -> Vec<&str> {
    sources.iter().map(|s| s.path.rsplit('/').next().expect("a name")).collect()
}

#[test]
fn the_tool_id_matches_the_ingest_filter_literal() {
    let call = ParsedCall { tool: config::TOOL_ID, ..ParsedCall::default() };
    assert!(matches_tool(&call, Tool::Skylark));
    assert!(!matches_tool(&call, Tool::ClaudeCode));
}

#[test]
fn a_call_matches_only_its_own_tool() {
    for id in ["cursor", "codex", "copilot", "gemini", "skylark"] {
        let call = ParsedCall { tool: id, ..ParsedCall::default() };
        for (tool, own, _) in tools() {
            assert_eq!(matches_tool(&call, tool), own == id);
        }
    }
    let two_words = tool_id(Tool::ClaudeCode).leak();
    let call = ParsedCall { tool: two_words, ..ParsedCall::default() };
    for (tool, _, _) in tools() {
        assert_eq!(matches_tool(&call, tool), tool == Tool::ClaudeCode);
        assert!(!matches_tool(&ParsedCall::default(), tool));
    }
}

#[test]
fn a_tool_has_an_identifier_and_a_short_label() {
    for (tool, id, label) in tools() {
        assert_eq!(tool_id(tool), id);
        assert_eq!(tool_label(tool), label);
        assert_eq!(find_tool(&id), Some(tool));
        assert_eq!(tool_short_label(&id), label);
        assert_eq!(find_tool(&id.to_uppercase()), None);
    }
    for other in ["", "Skylark", "ClaudeCode", "code", "cursor ", "other"] {
        assert_eq!(find_tool(other), None);
        assert_eq!(tool_short_label(other), "Other");
    }
}

#[test]
fn the_adapter_is_registered() {
    assert!(
        registry().iter().any(|a| a.id() == config::TOOL_ID),
        "an adapter that is not in the registry never runs"
    );
}

#[test]
fn fingerprint_version_forces_archived_sessions_through_new_parser() {
    let legacy = "missing:/tokenuse-skylark-fingerprint-test-missing";
    assert_eq!(
        Skylark.source_fingerprint(legacy),
        format!("{SOURCE_FINGERPRINT_VERSION}:{legacy}")
    );
    assert_eq!(Skylark.source_fingerprint(""), "skylark-v1-usage-export:");
    assert_ne!(Skylark.source_fingerprint("a"), Skylark.source_fingerprint("b"));
}

#[test]
fn the_adapter_names_itself() {
    assert_eq!(Skylark.id(), "skylark");
    assert_eq!(Skylark.display_name(), "Skylark");
    assert_eq!(Skylark.env_overrides(), ["SKYLARK_DIR"]);
}

#[test]
fn the_usage_directory_is_probed_where_it_is_known() {
    let roots = Skylark.probe_roots(Some("/home/u/.skylark/usage"));
    assert_eq!(roots.len(), 1);
    assert_eq!((roots[0].label, roots[0].path), ("usage", "/home/u/.skylark/usage"));
    assert!(Skylark.probe_roots(None::<&str>).is_empty());
}

#[test]
fn the_environment_comes_before_the_home_directory() {
    assert_eq!(
        config::usage_root(Some("/data"), Some("/home/u")),
        Some(("/data", vec!["usage"]))
    );
    assert_eq!(config::usage_root(Some("/data"), None), Some(("/data", vec!["usage"])));
    assert_eq!(
        config::usage_root(None, Some("/home/u")),
        Some(("/home/u", vec![".skylark", "usage"]))
    );
    assert_eq!(config::usage_root(None::<&str>, None), None);
}

#[test]
fn four_backend_classes_are_covered() {
    for backend in config::COVERED_BACKENDS {
        assert!(config::covers(backend));
    }
    for other in ["", "VSR", "vsr ", "remote_vllm", "cloud"] {
        assert!(!config::covers(other), "{other}");
    }
}

#[test]
fn discovers_usage_logs_in_emission_order() {
    let sources = discover(Some(vec![
        file("usage-000010.jsonl"),
        file("usage-000002.jsonl"),
        file("usage-000001.jsonl"),
    ]));
    assert_eq!(
        names(&sources),
        vec!["usage-000001.jsonl", "usage-000002.jsonl", "usage-000010.jsonl"],
        "the numeric index records emission order; ten sorts after two"
    );
    assert!(sources.iter().all(|s| s.project == "Skylark" && s.tool == "skylark"));
}

#[test]
fn ignores_files_that_are_not_usage_logs() {
    let sources = discover(Some(vec![
        file("usage-000001.jsonl"),
        file("telemetry.db"),
        file("usage-notanumber.jsonl"),
        file("usage-000002.json"),
    ]));
    assert_eq!(sources.len(), 1);
}

#[test]
fn a_missing_directory_is_no_sources_rather_than_an_error() {
    assert!(discover(None::<Vec<DirEntry<String>>>).is_empty());
    assert!(discover(Some(Vec::<DirEntry<String>>::new())).is_empty());
}

#[test]
fn only_files_are_logs_and_equal_numbers_keep_their_order() {
    let mut directory = file("usage-000001.jsonl");
    directory.is_file = false;
    let mut nameless = file("usage-000001.jsonl");
    nameless.name = None;
    let sources = discover(Some(vec![
        file("usage-7.jsonl"),
        directory,
        file("usage-+3.jsonl"),
        nameless,
        file("usage-007.jsonl"),
        file("usage-3.jsonl"),
        file("usage-0.jsonl"),
    ]));
    assert_eq!(
        names(&sources),
        vec!["usage-0.jsonl", "usage-+3.jsonl", "usage-3.jsonl", "usage-7.jsonl", "usage-007.jsonl"]
    );
}

#[test]
fn a_log_is_known_by_its_name() {
    for (name, index) in [
        ("usage-000001.jsonl", Some(1)),
        ("usage-0.jsonl", Some(0)),
        ("usage-+12.jsonl", Some(12)),
        ("usage-4294967295.jsonl", Some(u32::MAX)),
        ("usage-4294967296.jsonl", None),
        ("usage-99999999999999999999999.jsonl", None),
        ("usage-00000000000000000000001.jsonl", Some(1)),
        ("usage-.jsonl", None),
        ("usage-+.jsonl", None),
        ("usage--1.jsonl", None),
        ("usage-1.2.jsonl", None),
        ("usage-1 .jsonl", None),
        ("usage-\u{661}.jsonl", None),
        ("usage-1.JSONL", None),
        ("usage-1jsonl", None),
        ("Usage-1.jsonl", None),
        ("xusage-1.jsonl", None),
        ("usage-1.jsonl.bak", None),
        ("usage-1", None),
        (".jsonl", None),
        ("", None),
    ] {
        assert_eq!(file_index(name), index, "{name}");
    }
}
