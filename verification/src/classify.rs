//! Classification of Gherkin source lines by their leading keyword.

use vstd::prelude::*;
use crate::text::{
    eq_lit, has_lit_at, has_prefix, is_ws, lemma_skip_ws, lemma_trail_end, skip_ws, skip_ws_from, slice,
    trail_end, trim, trim_start,
};
use vstd::string::StrSliceExecFns;

verus! {

pub open spec fn starts_with_kw(l: Seq<char>, kw: Seq<char>) -> bool {
    has_prefix(trim_start(l), kw)
}

pub open spec fn is_blank(l: Seq<char>) -> bool {
    trim(l).len() == 0
}

pub open spec fn is_tag(l: Seq<char>) -> bool {
    starts_with_kw(l, "@"@)
}

pub open spec fn is_table(l: Seq<char>) -> bool {
    starts_with_kw(l, "|"@)
}

pub open spec fn is_comment(l: Seq<char>) -> bool {
    starts_with_kw(l, "#"@)
}

pub open spec fn is_docstring_marker(l: Seq<char>) -> bool {
    starts_with_kw(l, "\"\"\""@) || starts_with_kw(l, "```"@)
}

pub open spec fn is_feature(l: Seq<char>) -> bool {
    starts_with_kw(l, "Feature:"@)
}

pub open spec fn is_rule(l: Seq<char>) -> bool {
    starts_with_kw(l, "Rule:"@)
}

pub open spec fn is_background(l: Seq<char>) -> bool {
    starts_with_kw(l, "Background:"@)
}

/// `Scenario:`, `Example:`, or `Scenario` followed by `Outline:` / `Template:`.
pub open spec fn is_scenario(l: Seq<char>) -> bool {
    let t = trim_start(l);
    ||| has_prefix(t, "Scenario:"@)
    ||| has_prefix(t, "Example:"@)
    ||| has_prefix(t, "Scenario "@) && {
        let after = trim_start(t.skip("Scenario "@.len() as int));
        has_prefix(after, "Outline:"@) || has_prefix(after, "Template:"@)
    }
}

pub open spec fn is_examples(l: Seq<char>) -> bool {
    starts_with_kw(l, "Examples:"@) || starts_with_kw(l, "Scenarios:"@)
}

/// `t` starts with the step keyword `kw`, followed by the end, a space or a tab.
pub open spec fn step_keyword(t: Seq<char>, kw: Seq<char>) -> bool {
    &&& has_prefix(t, kw)
    &&& t.len() == kw.len() || t[kw.len() as int] == ' ' || t[kw.len() as int] == '\t'
}

pub open spec fn is_step(l: Seq<char>) -> bool {
    let t = trim_start(l);
    ||| step_keyword(t, "Given"@)
    ||| step_keyword(t, "When"@)
    ||| step_keyword(t, "Then"@)
    ||| step_keyword(t, "And"@)
    ||| step_keyword(t, "But"@)
    ||| t == "*"@
    ||| has_prefix(t, "* "@)
    ||| has_prefix(t, "*\t"@)
}

/// The whitespace that a line starts with.
pub open spec fn leading_indent(l: Seq<char>) -> Seq<char> {
    l.take(skip_ws(l, 0))
}

pub proof fn lemma_blank_iff(l: Seq<char>)
    ensures
        is_blank(l) <==> skip_ws(l, 0) == l.len(),
{
    lemma_skip_ws(l, 0);
    let a = skip_ws(l, 0);
    let t = l.skip(a);
    lemma_trail_end(t, t.len() as int);
    if a < l.len() {
        assert(t[0] == l[a]);
        if trail_end(t, t.len() as int) == 0 {
            assert(is_ws(t[0]));
        }
    }
}

fn kw_at_start(l: &Vec<char>, kw: &str) -> (r: bool)
    ensures
        r == starts_with_kw(l@, kw@),
{
    proof {
        lemma_skip_ws(l@, 0);
    }
    let a = skip_ws_from(l, 0);
    has_lit_at(l, a, kw)
}

pub fn line_is_blank(l: &Vec<char>) -> (r: bool)
    ensures
        r == is_blank(l@),
{
    proof {
        lemma_blank_iff(l@);
    }
    skip_ws_from(l, 0) == l.len()
}

pub fn line_is_tag(l: &Vec<char>) -> (r: bool)
    ensures
        r == is_tag(l@),
{
    kw_at_start(l, "@")
}

pub fn line_is_table(l: &Vec<char>) -> (r: bool)
    ensures
        r == is_table(l@),
{
    kw_at_start(l, "|")
}

pub fn line_is_comment(l: &Vec<char>) -> (r: bool)
    ensures
        r == is_comment(l@),
{
    kw_at_start(l, "#")
}

pub fn line_is_docstring_marker(l: &Vec<char>) -> (r: bool)
    ensures
        r == is_docstring_marker(l@),
{
    kw_at_start(l, "\"\"\"") || kw_at_start(l, "```")
}

pub fn line_is_feature(l: &Vec<char>) -> (r: bool)
    ensures
        r == is_feature(l@),
{
    kw_at_start(l, "Feature:")
}

pub fn line_is_rule(l: &Vec<char>) -> (r: bool)
    ensures
        r == is_rule(l@),
{
    kw_at_start(l, "Rule:")
}

pub fn line_is_background(l: &Vec<char>) -> (r: bool)
    ensures
        r == is_background(l@),
{
    kw_at_start(l, "Background:")
}

pub fn line_is_scenario(l: &Vec<char>) -> (r: bool)
    ensures
        r == is_scenario(l@),
{
    proof {
        lemma_skip_ws(l@, 0);
    }
    let a = skip_ws_from(l, 0);
    let ghost t = trim_start(l@);
    if has_lit_at(l, a, "Scenario:") || has_lit_at(l, a, "Example:") {
        return true;
    }
    if has_lit_at(l, a, "Scenario ") {
        let b = a + "Scenario ".unicode_len();
        let rest = slice(l, b, l.len());
        proof {
            assert(rest@ == t.skip("Scenario "@.len() as int));
            lemma_skip_ws(rest@, 0);
        }
        let c = skip_ws_from(&rest, 0);
        return has_lit_at(&rest, c, "Outline:") || has_lit_at(&rest, c, "Template:");
    }
    false
}

pub fn line_is_examples(l: &Vec<char>) -> (r: bool)
    ensures
        r == is_examples(l@),
{
    kw_at_start(l, "Examples:") || kw_at_start(l, "Scenarios:")
}

fn step_keyword_at(l: &Vec<char>, a: usize, kw: &str) -> (r: bool)
    requires
        a <= l.len(),
    ensures
        r == step_keyword(l@.skip(a as int), kw@),
{
    if !has_lit_at(l, a, kw) {
        return false;
    }
    let n = kw.unicode_len();
    let e = a + n;
    proof {
        assert(l@.skip(a as int).len() == l.len() - a);
    }
    if e == l.len() {
        return true;
    }
    proof {
        assert(l@.skip(a as int)[n as int] == l@[e as int]);
    }
    l[e] == ' ' || l[e] == '\t'
}

pub fn line_is_step(l: &Vec<char>) -> (r: bool)
    ensures
        r == is_step(l@),
{
    proof {
        lemma_skip_ws(l@, 0);
    }
    let a = skip_ws_from(l, 0);
    if step_keyword_at(l, a, "Given") || step_keyword_at(l, a, "When") || step_keyword_at(
        l,
        a,
        "Then",
    ) || step_keyword_at(l, a, "And") || step_keyword_at(l, a, "But") {
        return true;
    }
    let t = slice(l, a, l.len());
    proof {
        assert(t@ == trim_start(l@));
        assert(t@.skip(0) == t@);
    }
    eq_lit(&t, "*") || has_lit_at(&t, 0, "* ") || has_lit_at(&t, 0, "*\t")
}

pub fn line_leading_indent(l: &Vec<char>) -> (r: Vec<char>)
    ensures
        r@ == leading_indent(l@),
{
    proof {
        lemma_skip_ws(l@, 0);
    }
    let a = skip_ws_from(l, 0);
    slice(l, 0, a)
}

} // verus!
