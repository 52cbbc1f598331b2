use zed_gherkin::expression::{expression_to_regex, regex_source_of, PatternError};

#[test]
fn optional_group_and_parameter_source() {
    assert_eq!(regex_source_of("I have {int} cucumber(s)"), r"^I have -?\d+ cucumber(?:s)?$");
}

#[test]
fn parameter_sources() {
    assert_eq!(regex_source_of("{string}"), r#"^(?:"[^"]*"|'[^']*')$"#);
    assert_eq!(regex_source_of("{float}"), r"^-?\d+(?:\.\d+)?$");
    assert_eq!(regex_source_of("{word}"), r"^\S+$");
    assert_eq!(regex_source_of("{}"), r"^.+?$");
    assert_eq!(regex_source_of("{customType}"), r"^.+?$");
    assert_eq!(regex_source_of("{a(b}"), r"^.+?$");
}

#[test]
fn alternation_sources() {
    assert_eq!(regex_source_of("a/b"), r"^(?:a|b)$");
    assert_eq!(regex_source_of("x.y/z"), r"^(?:x\.y|z)$");
    assert_eq!(regex_source_of("a//b"), r"^a//b$");
    assert_eq!(regex_source_of("/a"), r"^/a$");
    assert_eq!(regex_source_of("a/"), r"^a/$");
}

#[test]
fn unbalanced_brackets_are_literal() {
    assert_eq!(regex_source_of("{unclosed x"), r"^\{unclosed x$");
    assert_eq!(regex_source_of("(open"), r"^\(open$");
    assert_eq!(regex_source_of("(a{b)"), r"^(?:a\{b)?$");
}

#[test]
fn specials_are_escaped_and_whitespace_kept() {
    assert_eq!(regex_source_of("price $5.00"), r"^price \$5\.00$");
    assert_eq!(regex_source_of("x-y"), r"^x\-y$");
    assert_eq!(regex_source_of("a\tb"), "^a\tb$");
    assert_eq!(regex_source_of(""), "^$");
}

#[test]
fn compiled_pattern_keeps_its_source() {
    let p = expression_to_regex("I eat apple/pear").unwrap();
    assert_eq!(p.source(), regex_source_of("I eat apple/pear"));
    assert!(p.is_match("I eat pear"));
}

#[test]
fn oversized_pattern_is_refused() {
    let expr = "{word} ".repeat(200_000);
    assert_eq!(expression_to_regex(&expr).err(), Some(PatternError));
}

#[test]
fn unknown_parameter_gets_the_anonymous_pattern() {
    assert_eq!(regex_source_of("I pick {colour} now"), regex_source_of("I pick {} now"));
    assert_eq!(regex_source_of("a/b {thing} (s)"), regex_source_of("a/b {} (s)"));
}
