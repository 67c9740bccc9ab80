use hyena::glob::{build_globset, discover_raw_files, sort_strings, GlobError};
use hyena::ingest::{scope_of, select_ingest_paths};
use hyena::logs::{excerpt_lines, filter_derived_lines, log_excerpt, render_raw_content};
use hyena::paths::{
    agent_log_path, is_markdown_path, normalize_rel_segments, notes_candidates,
    path_relative_to_root, scratch_path, start_path, under_root,
};
use hyena::policy::{policy_name_ok, PolicyMeta};
use hyena::search::search;
use hyena::unionfind::UnionFind;

#[test]
fn well_known_paths() {
    assert_eq!(agent_log_path("/r"), "/r/.hyena/agent/agent_log.ndjson");
    assert_eq!(scratch_path("/r"), "/r/.hyena/agent/scratch.ndjson");
}

#[test]
fn under_root_respects_component_boundaries() {
    assert!(under_root("/r/a", "/r"));
    assert!(under_root("/r", "/r"));
    assert!(!under_root("/rx/a", "/r"));
    assert!(!under_root("/q/a", "/r"));
}

#[test]
fn relative_paths() {
    assert_eq!(path_relative_to_root("/r/a/b.md", "/r"), "a/b.md");
    assert_eq!(path_relative_to_root("/r", "/r"), "");
    assert_eq!(path_relative_to_root("/elsewhere/x", "/r"), "/elsewhere/x");
}

#[test]
fn start_path_resolution() {
    assert_eq!(start_path("/r", None), "/r");
    assert_eq!(start_path("/r", Some("/abs/p")), "/abs/p");
    assert_eq!(start_path("/r", Some("sub")), "/r/sub");
}

#[test]
fn normalize_relative_segments() {
    assert_eq!(normalize_rel_segments("./a/b"), "a/b");
    assert_eq!(normalize_rel_segments("a//b/./c"), "a/b/c");
    assert_eq!(normalize_rel_segments("../a"), "../a");
}

#[test]
fn markdown_extension_detection() {
    assert!(is_markdown_path("/r/NOTES.md"));
    assert!(is_markdown_path("doc.markdown"));
    assert!(is_markdown_path("DOC.MD"));
    assert!(!is_markdown_path("notes.txt"));
    assert!(!is_markdown_path(".md"));
    assert!(!is_markdown_path("plain"));
}

#[test]
fn notes_walk_goes_up_to_root() {
    let dirs = notes_candidates("/r", "/r/a/b");
    assert_eq!(dirs, vec!["/r/a/b".to_string(), "/r/a".to_string(), "/r".to_string()]);
    let none = notes_candidates("/r", "/q/a");
    assert!(none.is_empty());
}

#[test]
fn scope_labels() {
    assert_eq!(scope_of("/r/a/NOTES.md", "/r"), "a");
    assert_eq!(scope_of("/r/NOTES.md", "/r"), ".");
    assert_eq!(scope_of("/q/NOTES.md", "/r"), ".");
}

#[test]
fn discover_filters_and_sorts() {
    let walked = vec![
        "/r/sub/NOTES.md".to_string(),
        "/r/NOTES.md".to_string(),
        "/r/sub/other.txt".to_string(),
        "/q/NOTES.md".to_string(),
    ];
    let patterns = vec!["**/NOTES.md".to_string()];
    let found = discover_raw_files("/r", &walked, &patterns).unwrap();
    assert_eq!(found, vec!["/r/NOTES.md".to_string(), "/r/sub/NOTES.md".to_string()]);
}

#[test]
fn discover_default_patterns_when_empty() {
    let walked = vec!["/r/NOTES.md".to_string(), "/r/readme.txt".to_string()];
    let found = discover_raw_files("/r", &walked, &Vec::new()).unwrap();
    assert_eq!(found, vec!["/r/NOTES.md".to_string()]);
}

#[test]
fn invalid_pattern_is_reported() {
    let patterns = vec!["[".to_string()];
    let err = build_globset(&patterns).err().expect("pattern should be rejected");
    match err {
        GlobError::BadPattern(p) => assert_eq!(p, "["),
        GlobError::BuildFailed => panic!("expected the pattern itself to be rejected"),
    }
}

#[test]
fn sorting_is_stable_by_content() {
    let v = vec!["b".to_string(), "a".to_string(), "ab".to_string(), "a".to_string()];
    let s = sort_strings(v);
    assert_eq!(s, vec!["a".to_string(), "a".to_string(), "ab".to_string(), "b".to_string()]);
}

#[test]
fn delta_selection() {
    let paths = vec![
        "/r/NOTES.md".to_string(),
        "/r/a/NOTES.md".to_string(),
        "/r/a/b/NOTES.md".to_string(),
    ];
    let only = vec!["./a/NOTES.md".to_string()];
    let picked = select_ingest_paths(paths.clone(), "/r", &only);
    assert_eq!(picked, vec!["/r/a/NOTES.md".to_string()]);
    let all = select_ingest_paths(paths.clone(), "/r", &Vec::new());
    assert_eq!(all, paths);
}

#[test]
fn log_excerpt_filters_and_limits() {
    let content = "one\n\ntwo\nthree\n";
    assert_eq!(log_excerpt(content, None), "one\ntwo\nthree\n");
    assert_eq!(log_excerpt(content, Some(1)), "one\n");
    assert_eq!(log_excerpt("", None), "");
}

#[test]
fn derived_lines_scope_and_max() {
    let content = "  {\"scope\":\"a\"}\n\n{\"scope\":\"b\"}\n{\"scope\":\"a/b\"}\n";
    let all = filter_derived_lines(content, None, None);
    assert_eq!(all.len(), 3);
    assert_eq!(all[0], "{\"scope\":\"a\"}");
    let scoped = filter_derived_lines(content, Some("\"a"), None);
    assert_eq!(scoped.len(), 2);
    let limited = filter_derived_lines(content, None, Some(2));
    assert_eq!(limited.len(), 2);
}

#[test]
fn read_notes_excerpt_limits_lines() {
    assert_eq!(excerpt_lines("a\nb\nc\nd\n", Some(2)), "a\nb");
    assert_eq!(excerpt_lines("a\nb", None), "a\nb");
}

#[test]
fn raw_content_rendering() {
    let paths = vec!["/r/NOTES.md".to_string()];
    let contents = vec!["line1\nline2".to_string()];
    let out = render_raw_content(&paths, &contents);
    assert!(out.starts_with("/r/NOTES.md"));
    assert!(out.contains("---"));
    assert!(out.contains("line1\nline2"));
    assert!(out.ends_with('\n'));
}

#[test]
fn search_matches_trimmed_lines() {
    let derived = "{\"ts\":\"2025-01-01\",\"text\":\"foo bar\"}\n{\"ts\":\"2025-01-02\",\"text\":\"baz qux\"}\n";
    let hits = search(derived, None, "foo");
    assert_eq!(hits.len(), 1);
    assert!(hits[0].contains("foo bar"));
}

#[test]
fn search_can_include_scratch() {
    let derived = "{\"text\":\"only in derived\"}\n";
    let scratch = "{\"text\":\"only in scratch\",\"query\":\"needle\"}\n";
    let hits = search(derived, Some(scratch), "needle");
    assert_eq!(hits.len(), 1);
    assert!(hits[0].contains("needle"));
    let without = search(derived, None, "needle");
    assert_eq!(without.len(), 0);
}

#[test]
fn policy_identity_check() {
    assert!(policy_name_ok("hyena"));
    assert!(!policy_name_ok("other"));
    let meta = PolicyMeta { name: "hyena".to_string(), version: None };
    assert!(hyena::policy::validate_policy(&meta));
}

#[test]
fn union_find_components() {
    let mut uf = UnionFind::new(5);
    uf.union(0, 2);
    uf.union(3, 4);
    assert_eq!(uf.find(0), uf.find(2));
    assert_ne!(uf.find(0), uf.find(1));
    let groups = uf.groups();
    assert_eq!(groups.len(), 3);
    let sizes: Vec<usize> = groups.iter().map(|g| g.len()).collect();
    assert!(sizes.contains(&2));
    assert!(sizes.contains(&1));
}

#[test]
fn search_empty_content_matches_nothing() {
    let hits = search("", None, "x");
    assert!(hits.is_empty());
}

#[test]
fn notes_walk_at_root_itself() {
    let dirs = notes_candidates("/r", "/r");
    assert_eq!(dirs, vec!["/r".to_string()]);
}

#[test]
fn log_excerpt_counts_one_line() {
    let limited = log_excerpt("a\nb\n", Some(1));
    assert_eq!(limited.lines().filter(|s| !s.is_empty()).count(), 1);
}

#[test]
fn valid_patterns_build() {
    let patterns = vec!["**/NOTES.md".to_string(), "*.txt".to_string()];
    assert!(build_globset(&patterns).is_ok());
}
