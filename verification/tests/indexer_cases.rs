use zed_gherkin::indexer::{parse_kind, Index, StepKind};

fn calls_of(path: &str, content: &str) -> Vec<(u32, u32, u32, String, String)> {
    let mut index = Index::default();
    index.scan_file(path, content);
    index
        .calls
        .iter()
        .map(|c| (c.line, c.col_start, c.col_end, c.keyword.clone(), c.text.clone()))
        .collect()
}

fn defs_of(path: &str, content: &str) -> Vec<(u32, u32, u32, StepKind, String)> {
    let mut index = Index::default();
    index.scan_file(path, content);
    index
        .defs
        .iter()
        .map(|d| (d.line, d.col_start, d.col_end, d.kind, d.expression.clone()))
        .collect()
}

#[test]
fn kinds_ignore_ascii_case() {
    assert_eq!(parse_kind("GIVEN"), StepKind::Given);
    assert_eq!(parse_kind("When"), StepKind::When);
    assert_eq!(parse_kind("tHeN"), StepKind::Then);
    assert_eq!(parse_kind("And"), StepKind::Any);
    assert_eq!(parse_kind("step"), StepKind::Any);
    assert_eq!(parse_kind("defineStep"), StepKind::Any);
}

#[test]
fn step_call_columns_and_keyword() {
    assert_eq!(
        calls_of("a.feature", "  * star step  \n"),
        vec![(0, 4, 13, "*".to_string(), "star step".to_string())]
    );
}

#[test]
fn step_call_needs_a_blank_after_the_keyword() {
    assert!(calls_of("a.feature", "Given\nGivenx y\nGiven \n").is_empty());
    // two blanks and nothing else: the text is the last blank
    assert_eq!(
        calls_of("a.feature", "Given  \n"),
        vec![(0, 6, 7, "Given".to_string(), " ".to_string())]
    );
}

#[test]
fn crlf_lines_and_bare_carriage_return() {
    assert_eq!(
        calls_of("a.feature", "  Given x\r\n  When y\r\n"),
        vec![
            (0, 8, 9, "Given".to_string(), "x".to_string()),
            (1, 7, 8, "When".to_string(), "y".to_string()),
        ]
    );
    assert_eq!(
        calls_of("a.feature", "  Given x\r"),
        vec![(0, 8, 9, "Given".to_string(), "x".to_string())]
    );
}

#[test]
fn columns_are_byte_offsets() {
    assert_eq!(
        calls_of("a.feature", "  Given café au lait\n"),
        vec![(0, 8, 21, "Given".to_string(), "café au lait".to_string())]
    );
}

#[test]
fn extension_decides_the_scanner() {
    assert!(calls_of(".feature", "Given x\n").is_empty());
    assert!(calls_of("notes.txt", "Given x\n").is_empty());
    assert!(calls_of("Makefile", "Given x\n").is_empty());
    assert_eq!(calls_of("dir.v2/a.feature", "Given x\n").len(), 1);
    assert_eq!(defs_of("s.mjs", "Given('m', f)\n").len(), 1);
    assert_eq!(defs_of("s.cjs", "Given('c', f)\n").len(), 1);
}

#[test]
fn javascript_variants() {
    assert_eq!(
        defs_of("s.js", "  When ( \"x y\" , fn)\ndefineStep('z', f)\nGiven(/^x$/, f)\nThen('abc\n"),
        vec![
            (0, 10, 13, StepKind::When, "x y".to_string()),
            (1, 12, 13, StepKind::Any, "z".to_string()),
        ]
    );
}

#[test]
fn python_variants() {
    let content = "@given( parsers.re ( \"x\" ) )\n@given(r'raw')\n@when(parsers.parse(\"a\"), target_fixture=\"t\")\n@then(x)\n@given(\"unterminated)\n@given(u.parse(\"z\"))\n";
    assert_eq!(
        defs_of("s.py", content),
        vec![
            (0, 22, 23, StepKind::Given, "x".to_string()),
            (1, 9, 12, StepKind::Given, "raw".to_string()),
            (2, 21, 22, StepKind::When, "a".to_string()),
            (5, 16, 17, StepKind::Given, "z".to_string()),
        ]
    );
}

#[test]
fn python_wrapper_names_may_be_unicode_words() {
    assert_eq!(
        defs_of("s.py", "@given(прасеры.parse(\"ю\"))\n"),
        vec![(0, 29, 31, StepKind::Given, "ю".to_string())]
    );
}

#[test]
fn definition_columns_and_pattern() {
    let mut index = Index::default();
    index.scan_file("steps.py", "@given(\"I have {int} cukes\")\n");
    assert_eq!((index.defs[0].col_start, index.defs[0].col_end), (8, 26));
    assert_eq!(index.defs[0].regex.source(), r"^I have -?\d+ cukes$");
}

#[test]
fn dropping_a_scanned_file_restores_the_index() {
    let mut index = Index::default();
    index.scan_file("a.py", "@given(\"x\")\n");
    index.scan_file("b.feature", "  Given x\n");
    index.drop_file("b.feature");
    assert_eq!(index.defs.len(), 1);
    assert!(index.calls.is_empty());
    assert_eq!(index.defs[0].path, "a.py");
}
