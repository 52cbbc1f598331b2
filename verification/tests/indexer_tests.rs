use zed_gherkin::indexer::{Index, StepKind};

fn p(s: &str) -> String {
    s.to_string()
}

    #[test]
    fn feature_extracts_all_step_keywords() {
        let mut index = Index::default();
        let content = "\
Feature: demo
  Scenario: one
    Given I have 5 cukes
    When I eat them
    Then they are gone
    And something else
    But not this
    * also this
";
        index.scan_file(&p("demo.feature"), content);
        assert_eq!(index.calls.len(), 6);
        assert_eq!(index.calls[0].keyword, "Given");
        assert_eq!(index.calls[0].text, "I have 5 cukes");
        assert_eq!(index.calls[1].keyword, "When");
        assert_eq!(index.calls[2].keyword, "Then");
        assert_eq!(index.calls[3].keyword, "And");
        assert_eq!(index.calls[4].keyword, "But");
        assert_eq!(index.calls[5].keyword, "*");
    }

    #[test]
    fn feature_skips_non_step_lines() {
        let mut index = Index::default();
        let content = "\
Feature: demo
  # a comment
  @tag
  Scenario: one
    Given foo
";
        index.scan_file(&p("x.feature"), content);
        assert_eq!(index.calls.len(), 1);
        assert_eq!(index.calls[0].text, "foo");
    }

    #[test]
    fn python_behave_decorators_double_quote() {
        let mut index = Index::default();
        let content = r#"
from behave import given, when, then

@given("I have {int} cukes")
def step_impl(context, count):
    pass

@when("I eat {int}")
def _(context, n): pass

@then("they are gone")
def _(context): pass
"#;
        index.scan_file(&p("steps.py"), content);
        assert_eq!(index.defs.len(), 3);
        assert_eq!(index.defs[0].expression, "I have {int} cukes");
        assert_eq!(index.defs[0].kind, StepKind::Given);
        assert_eq!(index.defs[1].kind, StepKind::When);
        assert_eq!(index.defs[2].kind, StepKind::Then);
    }

    #[test]
    fn python_single_quote_and_unicode_prefix() {
        let mut index = Index::default();
        let content = r#"
@given('single quotes work')
def _(c): pass

@when(u"unicode prefix")
def _(c): pass

@step("catchall")
def _(c): pass
"#;
        index.scan_file(&p("steps.py"), content);
        assert_eq!(index.defs.len(), 3);
        assert_eq!(index.defs[0].expression, "single quotes work");
        assert_eq!(index.defs[1].expression, "unicode prefix");
        assert_eq!(index.defs[2].expression, "catchall");
        assert_eq!(index.defs[2].kind, StepKind::Any);
    }

    #[test]
    fn python_commented_out_decorator_is_ignored() {
        let mut index = Index::default();
        let content = r#"
# @given("should not match")
# def _(c): pass

@given("should match")
def _(c): pass
"#;
        index.scan_file(&p("steps.py"), content);
        assert_eq!(index.defs.len(), 1);
        assert_eq!(index.defs[0].expression, "should match");
    }

    #[test]
    fn python_pytest_bdd_parsers_wrapper() {
        let mut index = Index::default();
        let content = r#"
from pytest_bdd import given, parsers

@given(parsers.parse("I have {int} cukes"))
def _(): pass

@given(parsers.cfparse('another pattern'))
def _(): pass
"#;
        index.scan_file(&p("steps.py"), content);
        assert_eq!(index.defs.len(), 2);
        assert_eq!(index.defs[0].expression, "I have {int} cukes");
        assert_eq!(index.defs[1].expression, "another pattern");
    }

    #[test]
    fn javascript_cucumber_js_all_quote_styles() {
        let mut index = Index::default();
        let content = r#"
const { Given, When, Then, And, But } = require('@cucumber/cucumber');

Given('I have {int} cukes', function (n) {});
When("I eat them", (ctx) => {});
Then(`they are gone`, async () => {});
And('something', () => {});
But('not this', () => {});
"#;
        index.scan_file(&p("steps.js"), content);
        assert_eq!(index.defs.len(), 5);
        assert_eq!(index.defs[0].expression, "I have {int} cukes");
        assert_eq!(index.defs[1].expression, "I eat them");
        assert_eq!(index.defs[2].expression, "they are gone");
        assert_eq!(index.defs[3].expression, "something");
        assert_eq!(index.defs[4].expression, "not this");
    }

    #[test]
    fn typescript_works_same_as_js() {
        let mut index = Index::default();
        let content = r#"
import { Given } from '@cucumber/cucumber';
Given('ts works', (): void => {});
"#;
        index.scan_file(&p("steps.ts"), content);
        assert_eq!(index.defs.len(), 1);
        assert_eq!(index.defs[0].expression, "ts works");
    }

    #[test]
    fn expression_regex_matches_step_call() {
        let mut index = Index::default();
        index.scan_file(
            &p("a.py"),
            r#"@given("I have {int} cukes")
def _(c, n): pass
"#,
        );
        index.scan_file(
            &p("b.feature"),
            "Feature: x\n  Scenario: y\n    Given I have 5 cukes\n",
        );
        assert_eq!(index.defs.len(), 1);
        assert_eq!(index.calls.len(), 1);
        assert!(index.defs[0].regex.is_match(&index.calls[0].text));
    }

    #[test]
    fn drop_file_removes_entries() {
        let mut index = Index::default();
        index.scan_file(&p("a.py"), r#"@given("x")
def _(): pass
"#);
        index.scan_file(&p("b.feature"), "  Given x\n");
        assert_eq!(index.defs.len(), 1);
        assert_eq!(index.calls.len(), 1);
        index.drop_file(&p("a.py"));
        assert_eq!(index.defs.len(), 0);
        assert_eq!(index.calls.len(), 1);
    }
