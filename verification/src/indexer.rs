//! The step index: step calls found in `.feature` files and step
//! definitions found in Python (`behave`, `pytest-bdd`) and
//! JavaScript/TypeScript (`@cucumber/cucumber`) sources.
//!
//! Each recognised line is described by a small grammar (`step_call_span`,
//! `py_def_span`, `js_def_span`); columns are UTF-8 byte offsets within the
//! line and lines are numbered from 0.

use vstd::prelude::*;
use crate::expression::{
    expression_to_regex, find_from, lemma_find_from, regex_accepts, regex_source, StepPattern,
};
use crate::table::eq_ignore_ascii_case;
use crate::text::{
    byte_len, byte_offset_u32, chars_of, has_lit_at, has_prefix, lemma_skip_ws, lemma_trail_end,
    lines_of, skip_ws, skip_ws_from, slice, string_from_chars, text_lines, trail_end,
    trail_end_from, views,
};
use vstd::string::StrSliceExecFns;

verus! {

// ---------- outside helpers ----------

/// Whether `c` belongs to the `\w` class of the `regex` crate.
pub uninterp spec fn regex_word_char(c: char) -> bool;

/// `regex_syntax::try_is_word_character`: membership in the Unicode word
/// class (`Alphabetic`, `Join_Control`, `Decimal_Number`, `Mark`,
/// `Connector_Punctuation`) that `\w` matches.
///
/// Trusted: the result is `regex_word_char(c)`.
#[verifier::external_body]
fn word_char(c: char) -> (r: bool)
    ensures
        r == regex_word_char(c),
{
    match regex_syntax::try_is_word_character(c) {
        Ok(b) => b,
        Err(_) => false,
    }
}

/// The extension of a file path, as `std::path::Path::extension` gives it.
pub uninterp spec fn file_extension(path: Seq<char>) -> Option<Seq<char>>;

/// `Path::extension` of `path`, as text.
///
/// Trusted: the result is `file_extension(path)`.
#[verifier::external_body]
fn path_extension(path: &str) -> (r: Option<String>)
    ensures
        r matches Some(e) ==> file_extension(path@) == Some(e@),
        r is None ==> file_extension(path@) is None,
{
    std::path::Path::new(path).extension().and_then(|e| e.to_str()).map(|e| e.to_string())
}

/// Whether two paths are equal as `std::path::Path` values (component by
/// component).
pub uninterp spec fn paths_equal(a: Seq<char>, b: Seq<char>) -> bool;

/// `Path == Path` on two paths given as text.
///
/// Trusted: the result is `paths_equal(a, b)`; identical texts are equal
/// paths, since `Path` equality compares the components of the two paths.
#[verifier::external_body]
pub(crate) fn same_path(a: &str, b: &str) -> (r: bool)
    ensures
        r == paths_equal(a@, b@),
        a@ == b@ ==> r,
{
    std::path::Path::new(a) == std::path::Path::new(b)
}

// ---------- records ----------

/// The keyword a step definition was declared with.
#[derive(Clone, Copy, Debug, PartialEq, Eq, Structural)]
pub enum StepKind {
    Given,
    When,
    Then,
    Any,
}

/// A step definition found in a source file.
#[derive(Debug)]
pub struct StepDef {
    pub path: String,
    pub line: u32,
    pub col_start: u32,
    pub col_end: u32,
    pub kind: StepKind,
    pub expression: String,
    pub regex: StepPattern,
}

/// A step call found in a `.feature` file.
#[derive(Debug)]
pub struct StepCall {
    pub path: String,
    pub line: u32,
    pub col_start: u32,
    pub col_end: u32,
    pub keyword: String,
    pub text: String,
}

pub struct DefView {
    pub path: Seq<char>,
    pub line: u32,
    pub col_start: u32,
    pub col_end: u32,
    pub kind: StepKind,
    pub expression: Seq<char>,
    pub pattern: Seq<char>,
}

pub struct CallView {
    pub path: Seq<char>,
    pub line: u32,
    pub col_start: u32,
    pub col_end: u32,
    pub keyword: Seq<char>,
    pub text: Seq<char>,
}

impl View for StepDef {
    type V = DefView;

    open spec fn view(&self) -> DefView {
        DefView {
            path: self.path@,
            line: self.line,
            col_start: self.col_start,
            col_end: self.col_end,
            kind: self.kind,
            expression: self.expression@,
            pattern: self.regex@,
        }
    }
}

impl View for StepCall {
    type V = CallView;

    open spec fn view(&self) -> CallView {
        CallView {
            path: self.path@,
            line: self.line,
            col_start: self.col_start,
            col_end: self.col_end,
            keyword: self.keyword@,
            text: self.text@,
        }
    }
}

pub open spec fn def_views(v: Seq<StepDef>) -> Seq<DefView> {
    v.map_values(|d: StepDef| d@)
}

pub open spec fn call_views(v: Seq<StepCall>) -> Seq<CallView> {
    v.map_values(|c: StepCall| c@)
}

// ---------- step calls in feature files ----------

/// The step keyword that `t` starts with.
pub open spec fn call_keyword(t: Seq<char>) -> Option<Seq<char>> {
    if has_prefix(t, "Given"@) {
        Some("Given"@)
    } else if has_prefix(t, "When"@) {
        Some("When"@)
    } else if has_prefix(t, "Then"@) {
        Some("Then"@)
    } else if has_prefix(t, "And"@) {
        Some("And"@)
    } else if has_prefix(t, "But"@) {
        Some("But"@)
    } else if has_prefix(t, "*"@) {
        Some("*"@)
    } else {
        None
    }
}

/// A step call line: optional indent, a step keyword, at least one blank,
/// then the step text up to the last non-blank character (the pattern
/// `^\s*(Given|When|Then|And|But|\*)\s+(.+?)\s*$`). The result holds the
/// keyword's and the text's start and end.
pub open spec fn step_call_span(l: Seq<char>) -> Option<(int, int, int, int)> {
    let a = skip_ws(l, 0);
    match call_keyword(l.skip(a)) {
        None => None,
        Some(kw) => {
            let b = a + kw.len();
            let c = skip_ws(l, b);
            if c == b {
                None
            } else if c < l.len() {
                Some((a, b, c, trail_end(l, l.len() as int)))
            } else if c - b >= 2 {
                Some((a, b, c - 1, c))
            } else {
                None
            }
        }
    }
}

/// The step call on line `idx` of a feature file, if it is one.
pub open spec fn call_on_line(path: Seq<char>, idx: int, l: Seq<char>) -> Option<CallView> {
    match step_call_span(l) {
        Some((a, b, c, d)) => Some(
            CallView {
                path,
                line: idx as u32,
                col_start: byte_len(l.take(c)) as u32,
                col_end: byte_len(l.take(d)) as u32,
                keyword: l.subrange(a, b),
                text: l.subrange(c, d),
            },
        ),
        None => None,
    }
}

/// The step calls of the lines `ls` of a feature file, in order.
pub open spec fn feature_calls(path: Seq<char>, ls: Seq<Seq<char>>) -> Seq<CallView>
    decreases ls.len(),
{
    if ls.len() == 0 {
        Seq::empty()
    } else {
        let prev = feature_calls(path, ls.drop_last());
        match call_on_line(path, ls.len() - 1, ls.last()) {
            Some(c) => prev.push(c),
            None => prev,
        }
    }
}

fn call_keyword_at(l: &Vec<char>, a: usize) -> (r: Option<&'static str>)
    requires
        a <= l.len(),
    ensures
        call_keyword(l@.skip(a as int)) == (match r {
            Some(k) => Some(k@),
            None => None,
        }),
{
    if has_lit_at(l, a, "Given") {
        Some("Given")
    } else if has_lit_at(l, a, "When") {
        Some("When")
    } else if has_lit_at(l, a, "Then") {
        Some("Then")
    } else if has_lit_at(l, a, "And") {
        Some("And")
    } else if has_lit_at(l, a, "But") {
        Some("But")
    } else if has_lit_at(l, a, "*") {
        Some("*")
    } else {
        None
    }
}

/// Recognises a step call line (see `step_call_span`).
pub fn match_step_call(l: &Vec<char>) -> (r: Option<(usize, usize, usize, usize)>)
    ensures
        step_call_span(l@) == (match r {
            Some((a, b, c, d)) => Some((a as int, b as int, c as int, d as int)),
            None => None,
        }),
        r matches Some((a, b, c, d)) ==> a <= b <= c <= d <= l.len(),
{
    proof {
        lemma_skip_ws(l@, 0);
    }
    let a = skip_ws_from(l, 0);
    let kw = match call_keyword_at(l, a) {
        Some(k) => k,
        None => return None,
    };
    let b = a + kw.unicode_len();
    proof {
        lemma_skip_ws(l@, b as int);
    }
    let c = skip_ws_from(l, b);
    if c == b {
        return None;
    }
    if c < l.len() {
        let d = trail_end_from(l, l.len());
        proof {
            lemma_trail_end(l@, l.len() as int);
            if d <= c {
                assert(!crate::text::is_ws(l@[c as int]));
            }
        }
        return Some((a, b, c, d));
    }
    if c - b >= 2 {
        return Some((a, b, c - 1, c));
    }
    None
}

fn str_of(v: &Vec<char>, a: usize, b: usize) -> (r: String)
    requires
        a <= b <= v.len(),
    ensures
        r@ == v@.subrange(a as int, b as int),
{
    string_from_chars(&slice(v, a, b))
}

/// Appends to `out` the step calls of a feature file's text.
pub fn scan_feature(path: &str, content: &str, out: &mut Vec<StepCall>)
    ensures
        call_views(final(out)@) == call_views(old(out)@) + feature_calls(
            path@,
            text_lines(content@),
        ),
{
    let chars = chars_of(content);
    let lines = lines_of(&chars);
    let ghost ls = views(lines@);
    let ghost start = call_views(out@);
    let mut idx: usize = 0;
    proof {
        assert(ls.take(0) =~= Seq::<Seq<char>>::empty());
        assert(start + Seq::<CallView>::empty() =~= start);
    }
    while idx < lines.len()
        invariant
            idx <= lines.len(),
            ls == views(lines@),
            ls == text_lines(content@),
            call_views(out@) == start + feature_calls(path@, ls.take(idx as int)),
        decreases lines.len() - idx,
    {
        let l = &lines[idx];
        proof {
            assert(ls.take(idx + 1).drop_last() == ls.take(idx as int));
            assert(ls.take(idx + 1).last() == l@);
        }
        match match_step_call(l) {
            Some((a, b, c, d)) => {
                let call = StepCall {
                    path: string_from_chars(&chars_of(path)),
                    line: idx as u32,
                    col_start: byte_offset_u32(l, c),
                    col_end: byte_offset_u32(l, d),
                    keyword: str_of(l, a, b),
                    text: str_of(l, c, d),
                };
                proof {
                    assert(call_views(out@.push(call)) =~= call_views(out@).push(call@));
                }
                out.push(call);
            },
            None => {},
        }
        idx += 1;
    }
    proof {
        assert(ls.take(lines.len() as int) == ls);
    }
}

// ---------- step definitions ----------

/// The first index at or after `i` that is not a `\w` character.
pub open spec fn word_run(l: Seq<char>, i: int) -> int
    decreases l.len() - i,
{
    if i < 0 || i >= l.len() {
        i
    } else if regex_word_char(l[i]) {
        word_run(l, i + 1)
    } else {
        i
    }
}

/// The decorator name that `t` starts with (`@given(...)` and friends).
pub open spec fn py_keyword(t: Seq<char>) -> Option<Seq<char>> {
    if has_prefix(t, "given"@) {
        Some("given"@)
    } else if has_prefix(t, "when"@) {
        Some("when"@)
    } else if has_prefix(t, "then"@) {
        Some("then"@)
    } else if has_prefix(t, "step"@) {
        Some("step"@)
    } else {
        None
    }
}

/// The step-definition call that `t` starts with.
pub open spec fn js_keyword(t: Seq<char>) -> Option<Seq<char>> {
    if has_prefix(t, "Given"@) {
        Some("Given"@)
    } else if has_prefix(t, "When"@) {
        Some("When"@)
    } else if has_prefix(t, "Then"@) {
        Some("Then"@)
    } else if has_prefix(t, "And"@) {
        Some("And"@)
    } else if has_prefix(t, "But"@) {
        Some("But"@)
    } else if has_prefix(t, "defineStep"@) {
        Some("defineStep"@)
    } else {
        None
    }
}

/// After a `pytest-bdd` parser wrapper such as `parsers.parse(` at `p`
/// (`\w+\.\w+\s*\(\s*`), the index where the string literal must start.
pub open spec fn wrapper_end(l: Seq<char>, p: int) -> Option<int> {
    let w1 = word_run(l, p);
    if w1 > p && w1 < l.len() && l[w1] == '.' {
        let w2 = word_run(l, w1 + 1);
        if w2 > w1 + 1 {
            let p3 = skip_ws(l, w2);
            if p3 < l.len() && l[p3] == '(' {
                Some(skip_ws(l, p3 + 1))
            } else {
                None
            }
        } else {
            None
        }
    } else {
        None
    }
}

/// A Python string literal at `p` (optionally prefixed `u` or `r`), single
/// or double quoted: the start and end of its contents.
pub open spec fn py_literal_at(l: Seq<char>, p: int) -> Option<(int, int)> {
    let r = if 0 <= p < l.len() && (l[p] == 'u' || l[p] == 'r') {
        p + 1
    } else {
        p
    };
    if 0 <= r < l.len() && (l[r] == '"' || l[r] == '\'') {
        let e = find_from(l, r + 1, l[r]);
        if e < l.len() {
            Some((r + 1, e))
        } else {
            None
        }
    } else {
        None
    }
}

/// A Python step decorator line: `@given(`, `@when(`, `@then(` or `@step(`,
/// optionally a parser wrapper call, then a string literal (the pattern
/// `^\s*@(given|when|then|step)\s*\(\s*(?:\w+\.\w+\s*\(\s*)?[ur]?(?:"([^"]*)"|'([^']*)')`).
/// The result holds the decorator name and the literal's contents' span.
pub open spec fn py_def_span(l: Seq<char>) -> Option<(Seq<char>, int, int)> {
    let a = skip_ws(l, 0);
    if !(a < l.len() && l[a] == '@') {
        None
    } else {
        match py_keyword(l.skip(a + 1)) {
            None => None,
            Some(kw) => {
                let p1 = skip_ws(l, a + 1 + kw.len());
                if !(p1 < l.len() && l[p1] == '(') {
                    None
                } else {
                    let p2 = skip_ws(l, p1 + 1);
                    let wrapped = match wrapper_end(l, p2) {
                        Some(q) => py_literal_at(l, q),
                        None => None,
                    };
                    match wrapped {
                        Some((s, e)) => Some((kw, s, e)),
                        None => match py_literal_at(l, p2) {
                            Some((s, e)) => Some((kw, s, e)),
                            None => None,
                        },
                    }
                }
            },
        }
    }
}

/// A JavaScript/TypeScript step definition line: `Given(`, `When(`,
/// `Then(`, `And(`, `But(` or `defineStep(` followed by a single-, double- or
/// back-quoted string (the pattern
/// ``^\s*(Given|When|Then|And|But|defineStep)\s*\(\s*(?:"([^"]*)"|'([^']*)'|`([^`]*)`)``).
pub open spec fn js_def_span(l: Seq<char>) -> Option<(Seq<char>, int, int)> {
    let a = skip_ws(l, 0);
    match js_keyword(l.skip(a)) {
        None => None,
        Some(kw) => {
            let p1 = skip_ws(l, a + kw.len());
            if !(p1 < l.len() && l[p1] == '(') {
                None
            } else {
                let p2 = skip_ws(l, p1 + 1);
                if p2 < l.len() && (l[p2] == '"' || l[p2] == '\'' || l[p2] == '`') {
                    let e = find_from(l, p2 + 1, l[p2]);
                    if e < l.len() {
                        Some((kw, p2 + 1, e))
                    } else {
                        None
                    }
                } else {
                    None
                }
            }
        },
    }
}

/// The kind of a step keyword, compared case-insensitively.
pub open spec fn kind_of(kw: Seq<char>) -> StepKind {
    if eq_ignore_ascii_case(kw, seq!['g', 'i', 'v', 'e', 'n']) {
        StepKind::Given
    } else if eq_ignore_ascii_case(kw, seq!['w', 'h', 'e', 'n']) {
        StepKind::When
    } else if eq_ignore_ascii_case(kw, seq!['t', 'h', 'e', 'n']) {
        StepKind::Then
    } else {
        StepKind::Any
    }
}

/// The source languages that hold step definitions.
#[derive(Clone, Copy, Debug, PartialEq, Eq, Structural)]
pub enum DefLang {
    Python,
    JavaScript,
}

pub open spec fn def_span(lang: DefLang, l: Seq<char>) -> Option<(Seq<char>, int, int)> {
    match lang {
        DefLang::Python => py_def_span(l),
        DefLang::JavaScript => js_def_span(l),
    }
}

/// The step definition on line `idx`, if the line declares one whose
/// expression compiles.
pub open spec fn def_on_line(path: Seq<char>, idx: int, l: Seq<char>, lang: DefLang) -> Option<
    DefView,
> {
    match def_span(lang, l) {
        Some((kw, s, e)) => {
            let expression = l.subrange(s, e);
            if regex_accepts(regex_source(expression)) {
                Some(
                    DefView {
                        path,
                        line: idx as u32,
                        col_start: byte_len(l.take(s)) as u32,
                        col_end: byte_len(l.take(e)) as u32,
                        kind: kind_of(kw),
                        expression,
                        pattern: regex_source(expression),
                    },
                )
            } else {
                None
            }
        },
        None => None,
    }
}

/// The step definitions of the lines `ls` of a source file, in order.
pub open spec fn source_defs(path: Seq<char>, ls: Seq<Seq<char>>, lang: DefLang) -> Seq<DefView>
    decreases ls.len(),
{
    if ls.len() == 0 {
        Seq::empty()
    } else {
        let prev = source_defs(path, ls.drop_last(), lang);
        match def_on_line(path, ls.len() - 1, ls.last(), lang) {
            Some(d) => prev.push(d),
            None => prev,
        }
    }
}

fn word_run_from(l: &Vec<char>, i: usize) -> (r: usize)
    requires
        i <= l.len(),
    ensures
        r == word_run(l@, i as int),
        i <= r <= l.len(),
{
    let mut j = i;
    while j < l.len() && word_char(l[j])
        invariant
            i <= j <= l.len(),
            word_run(l@, j as int) == word_run(l@, i as int),
        decreases l.len() - j,
    {
        j += 1;
    }
    j
}

fn find_char_from(l: &Vec<char>, i: usize, c: char) -> (r: usize)
    requires
        i <= l.len(),
    ensures
        r == find_from(l@, i as int, c),
        i <= r <= l.len(),
{
    let mut j = i;
    while j < l.len() && l[j] != c
        invariant
            i <= j <= l.len(),
            find_from(l@, j as int, c) == find_from(l@, i as int, c),
        decreases l.len() - j,
    {
        j += 1;
    }
    j
}

fn wrapper_end_at(l: &Vec<char>, p: usize) -> (r: Option<usize>)
    requires
        p <= l.len(),
    ensures
        wrapper_end(l@, p as int) == (match r {
            Some(q) => Some(q as int),
            None => None,
        }),
        r matches Some(q) ==> q <= l.len(),
{
    let w1 = word_run_from(l, p);
    if !(w1 > p && w1 < l.len() && l[w1] == '.') {
        return None;
    }
    let w2 = word_run_from(l, w1 + 1);
    if w2 <= w1 + 1 {
        return None;
    }
    proof {
        lemma_skip_ws(l@, w2 as int);
    }
    let p3 = skip_ws_from(l, w2);
    if !(p3 < l.len() && l[p3] == '(') {
        return None;
    }
    proof {
        lemma_skip_ws(l@, p3 + 1);
    }
    Some(skip_ws_from(l, p3 + 1))
}

fn py_literal(l: &Vec<char>, p: usize) -> (r: Option<(usize, usize)>)
    requires
        p <= l.len(),
    ensures
        py_literal_at(l@, p as int) == (match r {
            Some((s, e)) => Some((s as int, e as int)),
            None => None,
        }),
        r matches Some((s, e)) ==> s <= e <= l.len(),
{
    let r = if p < l.len() && (l[p] == 'u' || l[p] == 'r') {
        p + 1
    } else {
        p
    };
    if r < l.len() && (l[r] == '"' || l[r] == '\'') {
        let e = find_char_from(l, r + 1, l[r]);
        if e < l.len() {
            return Some((r + 1, e));
        }
    }
    None
}

fn py_keyword_at(l: &Vec<char>, a: usize) -> (r: Option<&'static str>)
    requires
        a <= l.len(),
    ensures
        py_keyword(l@.skip(a as int)) == (match r {
            Some(k) => Some(k@),
            None => None,
        }),
{
    if has_lit_at(l, a, "given") {
        Some("given")
    } else if has_lit_at(l, a, "when") {
        Some("when")
    } else if has_lit_at(l, a, "then") {
        Some("then")
    } else if has_lit_at(l, a, "step") {
        Some("step")
    } else {
        None
    }
}

fn js_keyword_at(l: &Vec<char>, a: usize) -> (r: Option<&'static str>)
    requires
        a <= l.len(),
    ensures
        js_keyword(l@.skip(a as int)) == (match r {
            Some(k) => Some(k@),
            None => None,
        }),
{
    if has_lit_at(l, a, "Given") {
        Some("Given")
    } else if has_lit_at(l, a, "When") {
        Some("When")
    } else if has_lit_at(l, a, "Then") {
        Some("Then")
    } else if has_lit_at(l, a, "And") {
        Some("And")
    } else if has_lit_at(l, a, "But") {
        Some("But")
    } else if has_lit_at(l, a, "defineStep") {
        Some("defineStep")
    } else {
        None
    }
}

/// Recognises a Python step decorator line (see `py_def_span`).
pub fn match_python_def(l: &Vec<char>) -> (r: Option<(&'static str, usize, usize)>)
    ensures
        py_def_span(l@) == (match r {
            Some((k, s, e)) => Some((k@, s as int, e as int)),
            None => None,
        }),
        r matches Some((k, s, e)) ==> s <= e <= l.len(),
{
    proof {
        lemma_skip_ws(l@, 0);
    }
    let a = skip_ws_from(l, 0);
    if !(a < l.len() && l[a] == '@') {
        return None;
    }
    let kw = match py_keyword_at(l, a + 1) {
        Some(k) => k,
        None => return None,
    };
    proof {
        assert(has_prefix(l@.skip(a + 1), kw@));
        lemma_skip_ws(l@, a + 1 + kw@.len());
    }
    let p1 = skip_ws_from(l, a + 1 + kw.unicode_len());
    if !(p1 < l.len() && l[p1] == '(') {
        return None;
    }
    proof {
        lemma_skip_ws(l@, p1 + 1);
    }
    let p2 = skip_ws_from(l, p1 + 1);
    match wrapper_end_at(l, p2) {
        Some(q) => match py_literal(l, q) {
            Some((s, e)) => return Some((kw, s, e)),
            None => {},
        },
        None => {},
    }
    match py_literal(l, p2) {
        Some((s, e)) => Some((kw, s, e)),
        None => None,
    }
}

/// Recognises a JavaScript/TypeScript step definition line (see `js_def_span`).
pub fn match_js_def(l: &Vec<char>) -> (r: Option<(&'static str, usize, usize)>)
    ensures
        js_def_span(l@) == (match r {
            Some((k, s, e)) => Some((k@, s as int, e as int)),
            None => None,
        }),
        r matches Some((k, s, e)) ==> s <= e <= l.len(),
{
    proof {
        lemma_skip_ws(l@, 0);
    }
    let a = skip_ws_from(l, 0);
    let kw = match js_keyword_at(l, a) {
        Some(k) => k,
        None => return None,
    };
    proof {
        assert(has_prefix(l@.skip(a as int), kw@));
        lemma_skip_ws(l@, a + kw@.len());
    }
    let p1 = skip_ws_from(l, a + kw.unicode_len());
    if !(p1 < l.len() && l[p1] == '(') {
        return None;
    }
    proof {
        lemma_skip_ws(l@, p1 + 1);
    }
    let p2 = skip_ws_from(l, p1 + 1);
    if p2 < l.len() && (l[p2] == '"' || l[p2] == '\'' || l[p2] == '`') {
        let e = find_char_from(l, p2 + 1, l[p2]);
        if e < l.len() {
            return Some((kw, p2 + 1, e));
        }
    }
    None
}

/// The kind of a step keyword: `given`, `when` and `then` in any ASCII case
/// name their kind; every other keyword is `Any`.
pub fn parse_kind(kw: &str) -> (r: StepKind)
    ensures
        r == kind_of(kw@),
{
    let k = chars_of(kw);
    let given = vec!['g', 'i', 'v', 'e', 'n'];
    let when = vec!['w', 'h', 'e', 'n'];
    let then = vec!['t', 'h', 'e', 'n'];
    proof {
        assert(given@ == seq!['g', 'i', 'v', 'e', 'n']);
        assert(when@ == seq!['w', 'h', 'e', 'n']);
        assert(then@ == seq!['t', 'h', 'e', 'n']);
        assert(k@.skip(0) == k@);
    }
    if crate::table::eq_ignore_case_at(&k, 0, &given) {
        StepKind::Given
    } else if crate::table::eq_ignore_case_at(&k, 0, &when) {
        StepKind::When
    } else if crate::table::eq_ignore_case_at(&k, 0, &then) {
        StepKind::Then
    } else {
        StepKind::Any
    }
}

/// Appends a step definition for the expression `l[s..e]` if it compiles.
fn push_def(out: &mut Vec<StepDef>, path: &str, line_idx: usize, l: &Vec<char>, s: usize, e: usize, kw: &str)
    requires
        s <= e <= l.len(),
    ensures
        def_views(final(out)@) == match ({
            let expression = l@.subrange(s as int, e as int);
            if regex_accepts(regex_source(expression)) {
                Some(
                    DefView {
                        path: path@,
                        line: line_idx as u32,
                        col_start: byte_len(l@.take(s as int)) as u32,
                        col_end: byte_len(l@.take(e as int)) as u32,
                        kind: kind_of(kw@),
                        expression,
                        pattern: regex_source(expression),
                    },
                )
            } else {
                None
            }
        }) {
            Some(d) => def_views(old(out)@).push(d),
            None => def_views(old(out)@),
        },
{
    let expr = str_of(l, s, e);
    match expression_to_regex(expr.as_str()) {
        Ok(rx) => {
            let d = StepDef {
                path: string_from_chars(&chars_of(path)),
                line: line_idx as u32,
                col_start: byte_offset_u32(l, s),
                col_end: byte_offset_u32(l, e),
                kind: parse_kind(kw),
                expression: expr,
                regex: rx,
            };
            proof {
                assert(def_views(out@.push(d)) =~= def_views(out@).push(d@));
            }
            out.push(d);
        },
        Err(_) => {},
    }
}

/// Appends to `out` the step definitions of a source file's text.
fn scan_definitions(path: &str, content: &str, lang: DefLang, out: &mut Vec<StepDef>)
    ensures
        def_views(final(out)@) == def_views(old(out)@) + source_defs(
            path@,
            text_lines(content@),
            lang,
        ),
{
    let chars = chars_of(content);
    let lines = lines_of(&chars);
    let ghost ls = views(lines@);
    let ghost start = def_views(out@);
    let mut idx: usize = 0;
    proof {
        assert(ls.take(0) =~= Seq::<Seq<char>>::empty());
        assert(start + Seq::<DefView>::empty() =~= start);
    }
    while idx < lines.len()
        invariant
            idx <= lines.len(),
            ls == views(lines@),
            ls == text_lines(content@),
            def_views(out@) == start + source_defs(path@, ls.take(idx as int), lang),
        decreases lines.len() - idx,
    {
        let l = &lines[idx];
        proof {
            assert(ls.take(idx + 1).drop_last() == ls.take(idx as int));
            assert(ls.take(idx + 1).last() == l@);
        }
        let found = match lang {
            DefLang::Python => match_python_def(l),
            DefLang::JavaScript => match_js_def(l),
        };
        match found {
            Some((kw, s, e)) => {
                push_def(out, path, idx, l, s, e, kw);
            },
            None => {},
        }
        idx += 1;
    }
    proof {
        assert(ls.take(lines.len() as int) == ls);
    }
}

/// Appends to `out` the step definitions of a Python source.
pub fn scan_python(path: &str, content: &str, out: &mut Vec<StepDef>)
    ensures
        def_views(final(out)@) == def_views(old(out)@) + source_defs(
            path@,
            text_lines(content@),
            DefLang::Python,
        ),
{
    scan_definitions(path, content, DefLang::Python, out)
}

/// Appends to `out` the step definitions of a JavaScript or TypeScript source.
pub fn scan_javascript(path: &str, content: &str, out: &mut Vec<StepDef>)
    ensures
        def_views(final(out)@) == def_views(old(out)@) + source_defs(
            path@,
            text_lines(content@),
            DefLang::JavaScript,
        ),
{
    scan_definitions(path, content, DefLang::JavaScript, out)
}

// ---------- the index ----------

/// Every step definition and step call known.
#[derive(Debug)]
pub struct Index {
    pub defs: Vec<StepDef>,
    pub calls: Vec<StepCall>,
}

pub struct IndexView {
    pub defs: Seq<DefView>,
    pub calls: Seq<CallView>,
}

impl View for Index {
    type V = IndexView;

    open spec fn view(&self) -> IndexView {
        IndexView { defs: def_views(self.defs@), calls: call_views(self.calls@) }
    }
}

impl Default for Index {
    fn default() -> (r: Self)
        ensures
            r@.defs.len() == 0,
            r@.calls.len() == 0,
    {
        Index { defs: Vec::new(), calls: Vec::new() }
    }
}

/// The text of an optional extension; no extension reads as the empty text.
pub open spec fn ext_text(e: Option<Seq<char>>) -> Seq<char> {
    match e {
        Some(x) => x,
        None => Seq::empty(),
    }
}

/// The index after scanning `content` as the file `path` with extension
/// `ext`: `.feature` files add step calls; `.py` files add Python step
/// definitions; `.js`, `.ts`, `.mjs` and `.cjs` files add JavaScript step
/// definitions; other files change nothing.
pub open spec fn after_scan(v: IndexView, path: Seq<char>, ext: Seq<char>, content: Seq<char>) -> IndexView {
    if ext == "feature"@ {
        IndexView { calls: v.calls + feature_calls(path, text_lines(content)), ..v }
    } else if ext == "py"@ {
        IndexView { defs: v.defs + source_defs(path, text_lines(content), DefLang::Python), ..v }
    } else if ext == "js"@ || ext == "ts"@ || ext == "mjs"@ || ext == "cjs"@ {
        IndexView { defs: v.defs + source_defs(path, text_lines(content), DefLang::JavaScript), ..v }
    } else {
        v
    }
}

/// The step definitions of `ds` that do not belong to the file `p`.
pub open spec fn defs_elsewhere(ds: Seq<DefView>, p: Seq<char>) -> Seq<DefView>
    decreases ds.len(),
{
    if ds.len() == 0 {
        Seq::empty()
    } else {
        let prev = defs_elsewhere(ds.drop_last(), p);
        if paths_equal(ds.last().path, p) {
            prev
        } else {
            prev.push(ds.last())
        }
    }
}

/// The step calls of `cs` that do not belong to the file `p`.
pub open spec fn calls_elsewhere(cs: Seq<CallView>, p: Seq<char>) -> Seq<CallView>
    decreases cs.len(),
{
    if cs.len() == 0 {
        Seq::empty()
    } else {
        let prev = calls_elsewhere(cs.drop_last(), p);
        if paths_equal(cs.last().path, p) {
            prev
        } else {
            prev.push(cs.last())
        }
    }
}

pub open spec fn after_drop(v: IndexView, p: Seq<char>) -> IndexView {
    IndexView { defs: defs_elsewhere(v.defs, p), calls: calls_elsewhere(v.calls, p) }
}

impl Index {
    /// Scans `content` as the file `path` whose extension is `ext` (see
    /// `after_scan`).
    pub fn scan_source(&mut self, path: &str, ext: &str, content: &str)
        ensures
            final(self)@ == after_scan(old(self)@, path@, ext@, content@),
    {
        let e = chars_of(ext);
        if crate::text::eq_lit(&e, "feature") {
            scan_feature(path, content, &mut self.calls);
        } else if crate::text::eq_lit(&e, "py") {
            scan_python(path, content, &mut self.defs);
        } else if crate::text::eq_lit(&e, "js") || crate::text::eq_lit(&e, "ts")
            || crate::text::eq_lit(&e, "mjs") || crate::text::eq_lit(&e, "cjs") {
            scan_javascript(path, content, &mut self.defs);
        }
    }

    /// Scans a file's `content`, dispatching on the extension of `path`.
    pub fn scan_file(&mut self, path: &str, content: &str)
        ensures
            final(self)@ == after_scan(old(self)@, path@, ext_text(file_extension(path@)), content@),
    {
        proof {
            reveal_strlit("");
            assert(""@ =~= Seq::<char>::empty());
        }
        match path_extension(path) {
            Some(ext) => self.scan_source(path, ext.as_str(), content),
            None => self.scan_source(path, "", content),
        }
    }

    /// Removes every step definition and step call of the file `path`.
    pub fn drop_file(&mut self, path: &str)
        ensures
            final(self)@ == after_drop(old(self)@, path@),
    {
        let mut old_defs: Vec<StepDef> = Vec::new();
        std::mem::swap(&mut old_defs, &mut self.defs);
        let ghost od = def_views(old_defs@);
        proof {
            assert(def_views(self.defs@) =~= Seq::<DefView>::empty());
            assert(od.take(0) =~= Seq::<DefView>::empty());
        }
        for d in it: old_defs.into_iter()
            invariant
                od == def_views(it.seq()),
                od == def_views(old(self).defs@),
                self.calls@ == old(self).calls@,
                def_views(self.defs@) == defs_elsewhere(od.take(it.index() as int), path@),
        {
            let keep = !same_path(d.path.as_str(), path);
            proof {
                let k = it.index() as int;
                assert(od.take(k + 1).drop_last() == od.take(k));
                assert(od.take(k + 1).last() == d@);
            }
            if keep {
                proof {
                    assert(def_views(self.defs@.push(d)) =~= def_views(self.defs@).push(d@));
                }
                self.defs.push(d);
            }
        }
        proof {
            assert(od.take(od.len() as int) == od);
        }
        let mut old_calls: Vec<StepCall> = Vec::new();
        std::mem::swap(&mut old_calls, &mut self.calls);
        let ghost oc = call_views(old_calls@);
        proof {
            assert(call_views(self.calls@) =~= Seq::<CallView>::empty());
            assert(oc.take(0) =~= Seq::<CallView>::empty());
        }
        for c in it: old_calls.into_iter()
            invariant
                oc == call_views(it.seq()),
                oc == call_views(old(self).calls@),
                def_views(self.defs@) == defs_elsewhere(od, path@),
                call_views(self.calls@) == calls_elsewhere(oc.take(it.index() as int), path@),
        {
            let keep = !same_path(c.path.as_str(), path);
            proof {
                let k = it.index() as int;
                assert(oc.take(k + 1).drop_last() == oc.take(k));
                assert(oc.take(k + 1).last() == c@);
            }
            if keep {
                proof {
                    assert(call_views(self.calls@.push(c)) =~= call_views(self.calls@).push(c@));
                }
                self.calls.push(c);
            }
        }
        proof {
            assert(oc.take(oc.len() as int) == oc);
        }
    }
}

} // verus!
