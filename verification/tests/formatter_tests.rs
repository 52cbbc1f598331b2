use zed_gherkin::formatter::{format_gherkin, format_gherkin_with, Config};

fn fmt(s: &str) -> String {
    format_gherkin(s)
}

fn fmt_split(s: &str) -> String {
    format_gherkin_with(s, &Config { tags_per_line: true })
}

    // ---------- table alignment ----------

    #[test]
    fn leaves_canonical_layout_untouched() {
        let src = "Feature: f\n  Scenario: s\n    Given a thing\n";
        assert_eq!(fmt(src), src);
    }

    #[test]
    fn strips_trailing_whitespace() {
        let src = "Feature: f   \n  Scenario: s  \n";
        let want = "Feature: f\n  Scenario: s\n";
        assert_eq!(fmt(src), want);
    }

    #[test]
    fn aligns_numeric_table_right() {
        let src = "\
Feature: f
  Scenario Outline: s
    Examples:
      | start | eat | left |
      | 12 | 5 | 7 |
      | 20 | 5 | 15 |
";
        let want = "\
Feature: f
  Scenario Outline: s
    Examples:
      | start | eat | left |
      |    12 |   5 |    7 |
      |    20 |   5 |   15 |
";
        assert_eq!(fmt(src), want);
    }

    #[test]
    fn aligns_text_table_left_without_feature_context() {
        let src = "  | name | role |\n  | Alice | admin |\n  | Bob | user |\n";
        let want = "  | name  | role  |\n  | Alice | admin |\n  | Bob   | user  |\n";
        assert_eq!(fmt(src), want);
    }

    #[test]
    fn mixed_numeric_and_text_columns() {
        let src = "| name | count |\n| Alice | 2 |\n| Bob | 10 |\n";
        let want = "| name  | count |\n| Alice |     2 |\n| Bob   |    10 |\n";
        assert_eq!(fmt(src), want);
    }

    #[test]
    fn escaped_pipe_stays_inside_cell() {
        let src = "| a\\|b | c |\n| 1 | 2 |\n";
        let want = "| a\\|b | c |\n|    1 | 2 |\n";
        assert_eq!(fmt(src), want);
    }

    // ---------- step indentation ----------

    #[test]
    fn reindents_under_feature() {
        let src = "\
Feature: f
Scenario: s
Given a
When b
Then c
";
        let want = "\
Feature: f
  Scenario: s
    Given a
    When b
    Then c
";
        assert_eq!(fmt(src), want);
    }

    #[test]
    fn reindents_under_rule() {
        let src = "\
Feature: f
Rule: r
Scenario: s
Given a
";
        let want = "\
Feature: f
  Rule: r
    Scenario: s
      Given a
";
        assert_eq!(fmt(src), want);
    }

    #[test]
    fn reindents_examples_and_its_table() {
        let src = "\
Feature: f
Scenario Outline: s
Given <a>
Examples:
| a |
| 1 |
";
        let want = "\
Feature: f
  Scenario Outline: s
    Given <a>
    Examples:
      | a |
      | 1 |
";
        assert_eq!(fmt(src), want);
    }

    #[test]
    fn all_step_keywords_reindented() {
        let src = "\
Feature: f
Scenario: s
    Given a
   When b
     Then c
 And d
       But e
  * f
";
        let want = "\
Feature: f
  Scenario: s
    Given a
    When b
    Then c
    And d
    But e
    * f
";
        assert_eq!(fmt(src), want);
    }

    // ---------- tags ----------

    #[test]
    fn feature_level_tags_at_depth_zero() {
        let src = "@smoke @wip\nFeature: f\n  Scenario: s\n    Given a\n";
        let want = "@smoke @wip\nFeature: f\n  Scenario: s\n    Given a\n";
        assert_eq!(fmt(src), want);
    }

    #[test]
    fn scenario_tags_indented_to_scenario() {
        let src = "\
Feature: f
@slow
Scenario: s
Given a
";
        let want = "\
Feature: f
  @slow
  Scenario: s
    Given a
";
        assert_eq!(fmt(src), want);
    }

    #[test]
    fn tags_per_line_mode_splits_joined_input() {
        let src = "@a @b @c\nFeature: f\n  Scenario: s\n    Given x\n";
        let want = "\
@a
@b
@c
Feature: f
  Scenario: s
    Given x
";
        assert_eq!(fmt_split(src), want);
    }

    #[test]
    fn tags_per_line_mode_preserves_already_split_input() {
        let src = "\
@a
@b
Feature: f
  @slow
  @wip
  Scenario: s
    Given x
";
        assert_eq!(fmt_split(src), src);
    }

    #[test]
    fn default_mode_joins_regardless_of_input_layout() {
        let src = "\
@a
@b
Feature: f
@slow
@wip
Scenario: s
Given x
";
        let want = "\
@a @b
Feature: f
  @slow @wip
  Scenario: s
    Given x
";
        assert_eq!(fmt(src), want);
    }

    #[test]
    fn multiple_tag_lines_joined() {
        let src = "\
Feature: f
@a
@b @c
Scenario: s
Given x
";
        let want = "\
Feature: f
  @a @b @c
  Scenario: s
    Given x
";
        assert_eq!(fmt(src), want);
    }

    // ---------- blank line normalization ----------

    #[test]
    fn collapses_runs_of_blank_lines() {
        let src = "\
Feature: f


  Scenario: s



    Given a
";
        let want = "\
Feature: f

  Scenario: s

    Given a
";
        assert_eq!(fmt(src), want);
    }

    #[test]
    fn strips_leading_and_trailing_blanks() {
        let src = "\n\n\nFeature: f\n  Scenario: s\n    Given a\n\n\n";
        let want = "Feature: f\n  Scenario: s\n    Given a\n";
        assert_eq!(fmt(src), want);
    }

    // ---------- docstrings ----------

    #[test]
    fn docstring_markers_indented_content_preserved() {
        let src = "\
Feature: f
Scenario: s
Given a payload
\"\"\"
  hello

  world
\"\"\"
";
        let want = "\
Feature: f
  Scenario: s
    Given a payload
      \"\"\"
  hello

  world
      \"\"\"
";
        assert_eq!(fmt(src), want);
    }

    // ---------- combined ----------

    #[test]
    fn cucumber_example_end_to_end() {
        // Input omits the `Feature:` line, but the formatter assumes an
        // implicit feature and indents the scenario to 2 spaces — the
        // canonical layout you'd get after adding a `Feature:` above.
        let src = "\
Scenario Outline: eating
  Given there are <start> cucumbers
  When I eat <eat> cucumbers
  Then I should have <left> cucumbers

  Examples:
    | start | eat | left |
    | 12 | 5 | 7 |
    | 20 | 5 | 15 |
";
        // `want` is built piece by piece: a `"\` continuation would strip the
        // leading indent from the first line and hide the 2-space scenario
        // indent we actually care about.
        let want = [
            "  Scenario Outline: eating\n",
            "    Given there are <start> cucumbers\n",
            "    When I eat <eat> cucumbers\n",
            "    Then I should have <left> cucumbers\n",
            "\n",
            "    Examples:\n",
            "      | start | eat | left |\n",
            "      |    12 |   5 |    7 |\n",
            "      |    20 |   5 |   15 |\n",
        ]
        .concat();
        assert_eq!(fmt(src), want);
    }

    #[test]
    fn real_world_with_feature() {
        let src = "\
Feature: Cukes

Scenario Outline: eating
Given there are <start> cucumbers
When I eat <eat> cucumbers
Then I should have <left> cucumbers

Examples:
| start | eat | left |
| 12 | 5 | 7 |
| 20 | 5 | 15 |
";
        let want = "\
Feature: Cukes

  Scenario Outline: eating
    Given there are <start> cucumbers
    When I eat <eat> cucumbers
    Then I should have <left> cucumbers

    Examples:
      | start | eat | left |
      |    12 |   5 |    7 |
      |    20 |   5 |   15 |
";
        assert_eq!(fmt(src), want);
    }
