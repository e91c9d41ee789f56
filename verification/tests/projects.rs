//! Project identities, labels and tool mixes.

use tokenuse_skylark::call::{tool_id, tool_label, Tool};
use tokenuse_skylark::projects::{
    format_tool_mix, is_git_root, nearest_git_root, normalized_project_path,
    path_to_project_string, project_identity, project_label, project_label_lookup, project_parts,
    project_suffix, raw_project_display, shortest_unique_project_label, Ancestor,
    ProjectSource, StringHashMap, ToolCost,
};

#[derive(Clone, Copy, PartialEq)]
enum DotGit {
    Nothing,
    EmptyDir,
    DirWithHead,
    File,
}

fn ancestor(path: &str, git: DotGit) -> Ancestor {
    Ancestor {
        path: path.to_string(),
        dot_git_file: git == DotGit::File,
        dot_git_dir: git == DotGit::EmptyDir || git == DotGit::DirWithHead,
        head: git == DotGit::DirWithHead,
    }
}

/// The directories from `path` up, with what `git` says of each.
fn source(path: &str, git: &[(&str, DotGit)]) -> ProjectSource {
    let normal = normalized_project_path(path);
    let mut ancestors = Vec::new();
    let mut rest = normal.as_str();
    while !rest.is_empty() {
        let found = git.iter().find(|(p, _)| *p == rest).map_or(DotGit::Nothing, |(_, g)| *g);
        ancestors.push(ancestor(rest, found));
        rest = rest.rsplit_once('/').map_or("", |(up, _)| up);
    }
    let root = git.iter().find(|(p, _)| *p == "/").map_or(DotGit::Nothing, |(_, g)| *g);
    ancestors.push(ancestor("/", root));
    ProjectSource { raw: path.to_string(), absolute: normal.starts_with('/'), ancestors }
}

fn bare(path: &str) -> ProjectSource {
    source(path, &[])
}

fn strings(items: &[&str]) -> Vec<String> {
    items.iter().map(|s| s.to_string()).collect()
}

#[test]
fn an_empty_dot_git_directory_is_not_a_project_root() {
    let project = source("/tmp/stray/proj", &[("/tmp/stray", DotGit::EmptyDir)]);
    assert_eq!(
        project_identity(&project),
        path_to_project_string("/tmp/stray/proj"),
        "an empty .git directory must not be treated as a repository root"
    );
}

#[test]
fn a_dot_git_directory_holding_head_is_a_project_root() {
    let nested = source("/tmp/real/repo/src/inner", &[("/tmp/real/repo", DotGit::DirWithHead)]);
    assert_eq!(
        project_identity(&nested),
        path_to_project_string("/tmp/real/repo"),
        "the nearest real repository root must still win"
    );
}

#[test]
fn a_dot_git_file_is_a_project_root() {
    let nested = source("/tmp/gitfile/worktree/src", &[("/tmp/gitfile/worktree", DotGit::File)]);
    assert_eq!(
        project_identity(&nested),
        path_to_project_string("/tmp/gitfile/worktree"),
        "a .git file is a repository root"
    );
}

#[test]
fn the_nearest_of_two_roots_wins() {
    let nested = source(
        "/a/b/c/d",
        &[("/a", DotGit::DirWithHead), ("/a/b/c", DotGit::File), ("/a/b", DotGit::EmptyDir)],
    );
    assert_eq!(project_identity(&nested), "/a/b/c");
    assert_eq!(nearest_git_root(&nested), Some("/a/b/c".to_string()));
    assert_eq!(nearest_git_root(&bare("/a/b")), None);
}

#[test]
fn a_relative_path_lies_in_no_repository() {
    let relative = source("work/x", &[("work", DotGit::DirWithHead)]);
    assert_eq!(nearest_git_root(&relative), None);
    assert_eq!(project_identity(&relative), "work/x");
}

#[test]
fn the_root_directory_can_be_a_repository() {
    let project = source("/srv", &[("/", DotGit::DirWithHead)]);
    assert_eq!(project_identity(&project), "/");
}

#[test]
fn a_root_needs_a_file_or_a_head() {
    assert!(!is_git_root(&ancestor("/x", DotGit::Nothing)));
    assert!(!is_git_root(&ancestor("/x", DotGit::EmptyDir)));
    assert!(is_git_root(&ancestor("/x", DotGit::DirWithHead)));
    assert!(is_git_root(&ancestor("/x", DotGit::File)));
}

#[test]
fn a_project_path_has_a_normal_form() {
    for (raw, path) in [
        ("/home/u/proj", "/home/u/proj"),
        ("  /home/u/proj//  ", "/home/u/proj"),
        ("C:\\work\\proj\\", "C:/work/proj"),
        ("a//b/", "a//b"),
        ("proj", "proj"),
        ("\u{3000}proj\u{85}", "proj"),
        ("proj / ", "proj "),
        ("", "(unknown)"),
        ("   ", "(unknown)"),
        ("/", "(unknown)"),
        ("\\\\", "(unknown)"),
    ] {
        assert_eq!(normalized_project_path(raw), path, "{raw:?}");
        assert_eq!(raw_project_display(raw), path, "{raw:?}");
        assert_eq!(project_identity(&bare(raw)), path, "{raw:?}");
    }
}

#[test]
fn a_directory_is_a_project_without_its_last_slash() {
    for (path, project) in [
        ("/", "/"),
        ("//", "//"),
        ("\\", "/"),
        ("", ""),
        ("/a/", "/a"),
        ("C:\\a\\", "C:/a"),
        (" /a", " /a"),
    ] {
        assert_eq!(path_to_project_string(path), project, "{path:?}");
    }
}

#[test]
fn an_identity_has_parts() {
    assert_eq!(project_parts("/a/b"), strings(&["a", "b"]));
    assert_eq!(project_parts("a//b/"), strings(&["a", "b"]));
    assert_eq!(project_parts("///"), strings(&[]));
    assert_eq!(project_parts(""), strings(&[]));
    assert_eq!(project_parts("(unknown)"), strings(&["(unknown)"]));
    assert_eq!(project_parts("C:/x y/\u{e9}"), strings(&["C:", "x y", "\u{e9}"]));
}

#[test]
fn a_suffix_takes_the_last_parts() {
    let parts = strings(&["a", "b", "c"]);
    assert_eq!(project_suffix(&parts, 0), "");
    assert_eq!(project_suffix(&parts, 1), "c");
    assert_eq!(project_suffix(&parts, 2), "b/c");
    assert_eq!(project_suffix(&parts, 3), "a/b/c");
    assert_eq!(project_suffix(&parts, 9), "a/b/c");
    assert_eq!(project_suffix(&strings(&[]), 2), "");
}

#[test]
fn a_label_is_the_shortest_end_that_no_other_project_has() {
    let all = strings(&["/home/u/work/api", "/home/u/play/api", "/home/u/site", "/srv/work/api"]);
    assert_eq!(shortest_unique_project_label("/home/u/site", &all), "site");
    assert_eq!(shortest_unique_project_label("/home/u/play/api", &all), "play/api");
    assert_eq!(shortest_unique_project_label("/home/u/work/api", &all), "u/work/api");
    assert_eq!(shortest_unique_project_label("/srv/work/api", &all), "srv/work/api");
    assert_eq!(shortest_unique_project_label("/", &all), "(unknown)");
}

#[test]
fn a_project_whose_every_end_is_shared_keeps_its_whole_path() {
    let all = strings(&["/a/b", "/x/a/b", "a/b"]);
    assert_eq!(shortest_unique_project_label("/a/b", &all), "a/b");
    assert_eq!(shortest_unique_project_label("a/b", &all), "a/b");
    assert_eq!(shortest_unique_project_label("/x/a/b", &all), "x/a/b");
}

#[test]
fn labels_tell_projects_apart() {
    let raw = ["/w/one/api", "/w/two/api", "/w/three", "/v/two/api", "api", "", "/w/one/api/"];
    let labels = project_label_lookup(&raw.iter().map(|r| bare(r)).collect());
    assert_eq!(labels.len(), 6, "two spellings of one project are one project");
    for (identity, label) in [
        ("/w/one/api", "one/api"),
        ("/w/two/api", "w/two/api"),
        ("/v/two/api", "v/two/api"),
        ("/w/three", "three"),
        ("api", "api"),
        ("(unknown)", "(unknown)"),
    ] {
        assert_eq!(project_label(&labels, identity), label);
        assert_eq!(labels.get(identity).map(String::as_str), Some(label));
    }
}

#[test]
fn projects_of_one_repository_share_a_label() {
    let git = [("/w/repo", DotGit::DirWithHead)];
    let labels =
        project_label_lookup(&vec![source("/w/repo/a", &git), source("/w/repo/b/c", &git)]);
    assert_eq!(labels.len(), 1);
    assert_eq!(project_label(&labels, "/w/repo"), "repo");
}

#[test]
fn a_project_without_a_label_goes_by_its_name() {
    let labels: StringHashMap<String> = project_label_lookup(&Vec::new());
    assert_eq!(labels.len(), 0);
    assert_eq!(project_label(&labels, "/w/one/api"), "api");
    assert_eq!(project_label(&labels, "(unknown)"), "(unknown)");
    assert_eq!(project_label(&labels, "/"), "(unknown)");
}

fn row(tool: &str, rank: u64, money: &str) -> ToolCost {
    ToolCost { tool: tool.to_string(), rank, money: money.to_string() }
}

#[test]
fn a_mix_shows_the_three_most_costly_tools() {
    assert_eq!(format_tool_mix(&vec![]), "-");
    assert_eq!(format_tool_mix(&vec![row("codex", 5, "$5")]), "Codex $5");
    assert_eq!(
        format_tool_mix(&vec![
            row("cursor", 1, "$1"),
            row("skylark", 9, "$9"),
            row("codex", 4, "$4"),
            row("gemini", 7, "$7"),
        ]),
        "Skylark $9  Gemini $7  Codex $4"
    );
}

#[test]
fn a_tool_of_two_words_is_shown_by_its_first() {
    let id = tool_id(Tool::ClaudeCode);
    let label = tool_label(Tool::ClaudeCode);
    assert_eq!(
        format_tool_mix(&vec![row("codex", 3, "$3"), row(&id, 3, "$3"), row("cursor", 4, "$4")]),
        format!("Cursor $4  {label} $3  Codex $3")
    );
}

#[test]
fn tools_that_cost_the_same_stand_by_their_labels() {
    assert_eq!(
        format_tool_mix(&vec![
            row("skylark", 2, "$2"),
            row("cursor", 2, "$2"),
            row("copilot", 2, "$2"),
            row("codex", 2, "$2"),
        ]),
        "Codex $2  Copilot $2  Cursor $2"
    );
    assert_eq!(
        format_tool_mix(&vec![row("x", 2, "$x"), row("y", 2, "$y"), row("codex", 1, "$1")]),
        "Other $x  Other $y  Codex $1"
    );
}

#[test]
fn a_mix_does_not_depend_on_the_listing() {
    let listed = |order: [usize; 4]| {
        let all = [("cursor", 1, "$1"), ("skylark", 9, "$9"), ("x", 4, "$4"), ("codex", 4, "$4")];
        order.iter().map(|i| row(all[*i].0, all[*i].1, all[*i].2)).collect::<Vec<_>>()
    };
    let mix = format_tool_mix(&listed([0, 1, 2, 3]));
    assert_eq!(mix, "Skylark $9  Codex $4  Other $4");
    for order in [[1, 0, 2, 3], [0, 1, 3, 2], [3, 2, 1, 0], [2, 0, 3, 1]] {
        assert_eq!(format_tool_mix(&listed(order)), mix);
    }
}
