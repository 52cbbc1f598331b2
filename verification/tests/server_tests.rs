use zed_gherkin::indexer::Index;
use zed_gherkin::server::{select_calls, select_definitions, Location, Notice, Query, Reply, State};

const STEPS: &str = r#"@given("I have {int} cukes")
def _(c, n): pass

@when("I eat {int}")
def _(c, n): pass
"#;

const DEMO: &str = "\
Feature: demo
  Scenario: one
    Given I have 5 cukes
    When I eat 3
    Given I have 10 cukes
";

const STEPS_PATH: &str = "/workspace/demo/steps.py";
const FEATURE_PATH: &str = "/workspace/demo/demo.feature";

/// The state after indexing a workspace holding `steps.py` and `demo.feature`.
fn setup() -> State {
    let mut state = State::new();
    state.init(None, Some("/workspace/demo".to_string()));
    let mut idx = Index::default();
    idx.scan_file(STEPS_PATH, STEPS);
    idx.scan_file(FEATURE_PATH, DEMO);
    state.add_index(idx);
    state
}

#[test]
fn definition_from_feature_finds_python_def() {
    let state = setup();
    let locs = state.definition(FEATURE_PATH, 2); // line index 2 = "Given I have 5 cukes"
    assert_eq!(locs.len(), 1);
    assert!(locs[0].path.ends_with("steps.py"));
}

#[test]
fn definition_on_non_step_line_returns_empty() {
    let state = setup();
    let locs = state.definition(FEATURE_PATH, 0); // "Feature: demo"
    assert!(locs.is_empty());
}

#[test]
fn references_from_def_lists_all_matching_calls() {
    let state = setup();
    // The `@given("I have {int} cukes")` decorator is on line 0.
    let locs = state.references(STEPS_PATH, 0);
    assert_eq!(locs.len(), 2);
    assert!(locs.iter().all(|l| l.path.ends_with("demo.feature")));
}

#[test]
fn references_from_call_lists_sibling_calls() {
    let state = setup();
    // "Given I have 5 cukes" at line 2; siblings should include line 4.
    let locs = state.references(FEATURE_PATH, 2);
    assert_eq!(locs.len(), 2);
}

#[test]
fn rescan_with_picks_up_edits_in_memory() {
    let mut state = setup();
    let new_content = "\
Feature: demo
  Scenario: edited
    When I eat 7
";
    state.rescan_with(FEATURE_PATH, new_content);
    // Old "Given I have 5 cukes" gone; new "When I eat 7" on line 2.
    let locs = state.definition(FEATURE_PATH, 2);
    assert_eq!(locs.len(), 1);
    assert!(locs[0].path.ends_with("steps.py"));
}

#[test]
fn drop_file_clears_matching_references() {
    let mut state = setup();
    state.index.drop_file(STEPS_PATH);
    let locs = state.definition(FEATURE_PATH, 2);
    assert!(locs.is_empty());
}

// ---------- further cases ----------

fn loc(path: &str, line: u32, col_start: u32, col_end: u32) -> (String, u32, u32, u32) {
    (path.to_string(), line, col_start, col_end)
}

fn key(l: &Location) -> (String, u32, u32, u32) {
    (l.path.clone(), l.line, l.col_start, l.col_end)
}

#[test]
fn definition_location_spans_the_expression() {
    let state = setup();
    let locs = state.definition(FEATURE_PATH, 3); // "When I eat 3"
    assert_eq!(locs.len(), 1);
    // `@when("I eat {int}")` on line 3: the expression starts after `@when("`.
    assert_eq!(key(&locs[0]), loc(STEPS_PATH, 3, 7, 18));
}

#[test]
fn references_from_def_give_call_text_spans() {
    let state = setup();
    let locs: Vec<_> = state.references(STEPS_PATH, 0).iter().map(key).collect();
    assert_eq!(
        locs,
        vec![loc(FEATURE_PATH, 2, 10, 24), loc(FEATURE_PATH, 4, 10, 25)]
    );
}

#[test]
fn references_on_unknown_line_are_empty() {
    let state = setup();
    assert!(state.references(FEATURE_PATH, 1).is_empty());
    assert!(state.references("/elsewhere.py", 0).is_empty());
}

#[test]
fn same_path_written_differently_still_matches() {
    let state = setup();
    // `Path` equality compares components, so a doubled separator is the same file.
    let locs = state.definition("/workspace//demo/demo.feature", 2);
    assert_eq!(locs.len(), 1);
}

#[test]
fn rescan_path_without_contents_only_drops() {
    let mut state = setup();
    state.rescan_path(FEATURE_PATH, None);
    assert!(state.index.calls.is_empty());
    assert_eq!(state.index.defs.len(), 2);
}

#[test]
fn rescan_with_twice_is_rescan_once() {
    let mut once = setup();
    once.rescan_with(FEATURE_PATH, DEMO);
    let mut twice = setup();
    twice.rescan_with(FEATURE_PATH, DEMO);
    twice.rescan_with(FEATURE_PATH, DEMO);
    assert_eq!(once.index.calls.len(), twice.index.calls.len());
    assert_eq!(once.index.defs.len(), twice.index.defs.len());
    for (a, b) in once.index.calls.iter().zip(twice.index.calls.iter()) {
        assert_eq!((a.line, a.col_start, a.col_end, &a.text), (b.line, b.col_start, b.col_end, &b.text));
    }
}

#[test]
fn answer_definition_with_results_lists_them() {
    let state = setup();
    let reply = state.answer(&Query::Definition { path: Some(FEATURE_PATH.to_string()), line: 2 });
    match reply {
        Reply::Locations(locs) => assert_eq!(locs.len(), 1),
        Reply::Null => panic!("expected locations"),
    }
}

#[test]
fn answer_definition_without_results_is_null() {
    let state = setup();
    let reply = state.answer(&Query::Definition { path: Some(FEATURE_PATH.to_string()), line: 0 });
    assert!(matches!(reply, Reply::Null));
    let reply = state.answer(&Query::Definition { path: None, line: 2 });
    assert!(matches!(reply, Reply::Null));
}

#[test]
fn answer_references_is_always_a_list() {
    let state = setup();
    let reply = state.answer(&Query::References { path: Some(FEATURE_PATH.to_string()), line: 0 });
    match reply {
        Reply::Locations(locs) => assert!(locs.is_empty()),
        Reply::Null => panic!("expected a list"),
    }
}

#[test]
fn answer_other_is_null() {
    let state = setup();
    assert!(matches!(state.answer(&Query::Other), Reply::Null));
}

#[test]
fn opened_document_is_buffered_and_indexed() {
    let mut state = setup();
    let reread = state.on_notice(Notice::Opened {
        uri: "file:///workspace/demo/demo.feature".to_string(),
        path: Some(FEATURE_PATH.to_string()),
        text: "Feature: demo\n  Scenario: s\n    When I eat 1\n".to_string(),
    });
    assert!(reread.is_empty());
    assert_eq!(state.buffers.len(), 1);
    assert_eq!(state.index.calls.len(), 1);
    assert_eq!(state.index.calls[0].text, "I eat 1");
}

#[test]
fn changed_document_replaces_its_buffer() {
    let mut state = setup();
    let uri = "file:///workspace/demo/demo.feature".to_string();
    state.on_notice(Notice::Opened { uri: uri.clone(), path: Some(FEATURE_PATH.to_string()), text: "x".to_string() });
    state.on_notice(Notice::Changed {
        uri: uri.clone(),
        path: Some(FEATURE_PATH.to_string()),
        change: Some("  Given y\n".to_string()),
    });
    assert_eq!(state.buffers.len(), 1);
    assert_eq!(state.buffers[0].1, "  Given y\n");
    assert_eq!(state.index.calls.len(), 1);
    state.on_notice(Notice::Closed { uri });
    assert!(state.buffers.is_empty());
}

#[test]
fn change_without_content_changes_nothing() {
    let mut state = setup();
    let calls = state.index.calls.len();
    state.on_notice(Notice::Changed {
        uri: "file:///workspace/demo/demo.feature".to_string(),
        path: Some(FEATURE_PATH.to_string()),
        change: None,
    });
    assert_eq!(state.index.calls.len(), calls);
    assert!(state.buffers.is_empty());
}

#[test]
fn saved_and_watched_files_are_reread() {
    let mut state = setup();
    let r = state.on_notice(Notice::Saved { path: Some(STEPS_PATH.to_string()) });
    assert_eq!(r, vec![STEPS_PATH.to_string()]);
    let r = state.on_notice(Notice::WatchedFilesChanged {
        paths: vec![Some("/a.py".to_string()), None, Some("/b.feature".to_string())],
    });
    assert_eq!(r, vec!["/a.py".to_string(), "/b.feature".to_string()]);
    assert!(state.on_notice(Notice::Other).is_empty());
}

#[test]
fn workspace_folders_take_precedence_over_the_root() {
    let mut state = State::new();
    state.init(
        Some(vec![Some("/a".to_string()), None, Some("/b".to_string())]),
        Some("/root".to_string()),
    );
    assert_eq!(state.roots, vec!["/a".to_string(), "/b".to_string()]);
    let mut state = State::new();
    state.init(None, Some("/root".to_string()));
    assert_eq!(state.roots, vec!["/root".to_string()]);
    let mut state = State::new();
    state.init(None, None);
    assert!(state.roots.is_empty());
}

#[test]
fn selection_follows_the_flags() {
    let state = setup();
    let defs: Vec<_> = select_definitions(&state.index.defs, &vec![false, true]).iter().map(key).collect();
    assert_eq!(defs, vec![loc(STEPS_PATH, 3, 7, 18)]);
    let calls: Vec<_> = select_calls(&state.index.calls, &vec![true, false, true]).iter().map(key).collect();
    assert_eq!(calls, vec![loc(FEATURE_PATH, 2, 10, 24), loc(FEATURE_PATH, 4, 10, 25)]);
    assert!(select_calls(&state.index.calls, &vec![false, false, false]).is_empty());
}
