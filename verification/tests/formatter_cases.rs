use zed_gherkin::formatter::{format_gherkin, format_gherkin_with, CliRequest, Config};
use zed_gherkin::table::{format_table, split_cells};

fn fmt(s: &str) -> String {
    format_gherkin(s)
}

fn fmt_split(s: &str) -> String {
    format_gherkin_with(s, &Config { tags_per_line: true })
}

#[test]
fn empty_input_is_a_single_newline() {
    assert_eq!(fmt(""), "\n");
    assert_eq!(fmt("\n\n\n"), "\n");
    assert_eq!(fmt("   \n\t\n"), "\n");
}

#[test]
fn missing_final_newline_is_added() {
    assert_eq!(fmt("Feature: f"), "Feature: f\n");
}

#[test]
fn dangling_tags_are_kept_at_child_depth() {
    assert_eq!(fmt("Feature: f\n@wip\n"), "Feature: f\n  @wip\n");
    assert_eq!(fmt("@a\n@b\n"), "@a @b\n");
}

#[test]
fn doc_string_content_is_kept_verbatim() {
    let src = "Feature: f\n\"\"\"\n  a  \n\n\n  b\t\n\"\"\"\n";
    let want = "Feature: f\n    \"\"\"\n  a  \n\n\n  b\t\n    \"\"\"\n";
    assert_eq!(fmt(src), want);
}

#[test]
fn backtick_doc_string_markers() {
    let src = "Feature: f\nScenario: s\nGiven x\n```json\n{ }\n```\n";
    let want = "Feature: f\n  Scenario: s\n    Given x\n      ```json\n{ }\n      ```\n";
    assert_eq!(fmt(src), want);
}

#[test]
fn numbers_in_any_float_syntax_right_align() {
    let src = "| x |\n| 1.5e3 |\n| -inf |\n| .5 |\n";
    let want = "|     x |\n| 1.5e3 |\n|  -inf |\n|    .5 |\n";
    assert_eq!(fmt(src), want);
}

#[test]
fn incomplete_exponent_is_text() {
    assert_eq!(fmt("| x |\n| 1e |\n"), "| x  |\n| 1e |\n");
}

#[test]
fn rows_with_fewer_cells_keep_their_pipes_aligned() {
    assert_eq!(fmt("| a | b |\n| ccc |\n"), "| a   | b |\n| ccc |\n");
}

#[test]
fn empty_cells_do_not_spoil_a_numeric_column() {
    assert_eq!(fmt("| n |\n|  |\n| 7 |\n"), "| n |\n|   |\n| 7 |\n");
}

#[test]
fn header_only_table_is_left_aligned() {
    assert_eq!(fmt("| 1 | 22 |\n"), "| 1 | 22 |\n");
}

#[test]
fn rule_background_template_example_and_scenarios() {
    let src = "Feature: f\nRule: r\nBackground:\nGiven a\nScenario Template: t\nExamples:\n| a |\n| 1 |\nExample: e\n* x\nScenarios:\n";
    let want = "Feature: f\n  Rule: r\n    Background:\n      Given a\n    Scenario Template: t\n      Examples:\n        | a |\n        | 1 |\n    Example: e\n      * x\n      Scenarios:\n";
    assert_eq!(fmt(src), want);
}

#[test]
fn scenario_outline_with_extra_space() {
    assert_eq!(
        fmt("Feature: f\nScenario  Outline: o\nGiven x\n"),
        "Feature: f\n  Scenario  Outline: o\n    Given x\n"
    );
}

#[test]
fn comments_go_to_the_child_depth() {
    assert_eq!(fmt("Feature: f\n# note\n"), "Feature: f\n  # note\n");
}

#[test]
fn tags_per_line_before_scenario() {
    assert_eq!(
        fmt_split("Feature: f\n@a @b\nScenario: s\n"),
        "Feature: f\n  @a\n  @b\n  Scenario: s\n"
    );
}

#[test]
fn blank_before_table_is_kept_once() {
    assert_eq!(
        fmt("Feature: f\nScenario: s\nGiven x\n\n\n| a |\n"),
        "Feature: f\n  Scenario: s\n    Given x\n\n      | a |\n"
    );
}

#[test]
fn config_defaults_to_joined_tags() {
    assert_eq!(Config::default(), Config { tags_per_line: false });
}

#[test]
fn args_select_the_options() {
    assert_eq!(Config::from_args(&vec![]), Ok(CliRequest::Format(Config { tags_per_line: false })));
    assert_eq!(
        Config::from_args(&vec!["--tags-per-line".to_string()]),
        Ok(CliRequest::Format(Config { tags_per_line: true }))
    );
}

#[test]
fn first_non_option_argument_decides() {
    assert_eq!(
        Config::from_args(&vec!["--tags-per-line".to_string(), "--help".to_string()]),
        Ok(CliRequest::Help)
    );
    assert_eq!(
        Config::from_args(&vec!["-h".to_string(), "--bogus".to_string()]),
        Ok(CliRequest::Help)
    );
    assert_eq!(
        Config::from_args(&vec!["--bogus".to_string(), "-h".to_string()]),
        Err("unknown argument: --bogus".to_string())
    );
}

#[test]
fn tags_per_line_is_the_joined_output_split() {
    let src = "@a @b\nFeature: f\n  @c\n@d\nScenario: s\n\"\"\"\n@not a tag\n\"\"\"\n";
    let joined = fmt(src);
    assert_eq!(joined, "@a @b\nFeature: f\n  @c @d\n  Scenario: s\n      \"\"\"\n@not a tag\n      \"\"\"\n");
    assert_eq!(
        fmt_split(src),
        "@a\n@b\nFeature: f\n  @c\n  @d\n  Scenario: s\n      \"\"\"\n@not a tag\n      \"\"\"\n"
    );
}

#[test]
fn aligned_rows_split_back_into_their_cells() {
    let rows: Vec<Vec<char>> = vec!["|a| bb |".chars().collect(), "| x\\|y |1|".chars().collect()];
    let indent: Vec<char> = "    ".chars().collect();
    let out = format_table(&rows, &indent);
    assert_eq!(out.len(), 2);
    let first: String = out[0].iter().collect();
    let second: String = out[1].iter().collect();
    assert_eq!(first, "    | a    | bb |");
    assert_eq!(second, "    | x\\|y |  1 |");
    for k in 0..2 {
        assert_eq!(split_cells(&out[k]), split_cells(&rows[k]));
    }
}

#[test]
fn plain_cells_round_trip_through_a_row() {
    let row: Vec<char> = "| one | two words | 3 |".chars().collect();
    let cells: Vec<String> = split_cells(&row).iter().map(|c| c.iter().collect()).collect();
    assert_eq!(cells, vec!["one", "two words", "3"]);
}

#[test]
fn formatting_twice_changes_nothing() {
    let src = "\n@smoke  @wip\nFeature: f\n\n\nRule: r\n  Background:\nGiven a\n| n | name |\n|1|x|\n|22|yy|\n\n@slow\n  Scenario Outline: s\n\"\"\"\n  keep   \n\n\"\"\"\n    Examples:\n|a|\n|b|\n# done\n";
    let once = fmt(src);
    assert_eq!(fmt(&once), once);
    let split_once = fmt_split(src);
    assert_eq!(fmt_split(&split_once), split_once);
}

#[test]
fn one_tag_per_line_with_free_text_word_formats_twice_the_same() {
    let src = "Feature: f\n@a b\nScenario: s\n";
    let once = fmt_split(src);
    assert_eq!(once, "Feature: f\n  @a\n  b\n  Scenario: s\n");
    assert_eq!(fmt_split(&once), once);
}

#[test]
fn one_tag_per_line_moves_a_free_text_word_above_a_deeper_header() {
    let src = "@a b\nScenario: s\n";
    let once = fmt_split(src);
    assert_eq!(once, "  @a\n  b\n  Scenario: s\n");
    assert_eq!(fmt_split(&once), "@a\nb\n  Scenario: s\n");
}
