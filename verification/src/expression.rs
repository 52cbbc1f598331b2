//! Cucumber expressions and the regular expressions they stand for.
//!
//! `{string}`, `{int}`, `{float}`, `{word}` and `{}` become parameter
//! patterns (unknown parameter types match anything), `(s)` becomes an
//! optional group, `apple/pear` an alternation, and everything else is
//! matched literally. Building the pattern is this crate's own logic, stated
//! exactly by `regex_source`; compiling and matching are done by the `regex`
//! crate.

use vstd::prelude::*;
use crate::text::{
    chars_of, is_whitespace, is_ws, push_chars, push_str, slice, split_char, split_on, views,
};
use crate::formatter::join;

verus! {

#[verifier::external_type_specification]
#[verifier::external_body]
pub struct ExRegex(regex::Regex);

#[verifier::external_type_specification]
#[verifier::external_body]
pub struct ExRegexError(regex::Error);

/// Whether `regex::Regex::new` accepts the pattern.
pub uninterp spec fn regex_accepts(pattern: Seq<char>) -> bool;

/// Whether the regular expression `pattern` matches somewhere in `haystack`
/// (`regex::Regex::is_match`).
pub uninterp spec fn regex_is_match(pattern: Seq<char>, haystack: Seq<char>) -> bool;

/// The characters that `regex::escape` prefixes with a backslash.
pub open spec fn is_meta(c: char) -> bool {
    c == '\\' || c == '.' || c == '+' || c == '*' || c == '?' || c == '(' || c == ')' || c == '|'
        || c == '[' || c == ']' || c == '{' || c == '}' || c == '^' || c == '$' || c == '#' || c
        == '&' || c == '-' || c == '~'
}

/// `s` with every meta character preceded by a backslash.
pub open spec fn escaped(s: Seq<char>) -> Seq<char>
    decreases s.len(),
{
    if s.len() == 0 {
        Seq::empty()
    } else {
        escaped(s.drop_last()) + if is_meta(s.last()) {
            seq!['\\', s.last()]
        } else {
            seq![s.last()]
        }
    }
}

/// `regex::escape`: a pattern that matches `text` literally.
///
/// Trusted: calls `regex::escape`, which pushes a backslash before each
/// character for which `regex_syntax::is_meta_character` holds (the
/// characters of `is_meta`) and copies every character in order.
#[verifier::external_body]
fn regex_escape(text: &Vec<char>) -> (r: Vec<char>)
    ensures
        r@ == escaped(text@),
{
    let s: String = text.iter().collect();
    regex::escape(&s).chars().collect()
}

/// `regex::Regex::new` on the pattern `pattern`.
///
/// Trusted: the call succeeds exactly when `regex_accepts(pattern)`; the
/// compiled regex is not described further here.
#[verifier::external_body]
fn compile_regex(pattern: &Vec<char>) -> (r: Result<regex::Regex, regex::Error>)
    ensures
        r is Ok <==> regex_accepts(pattern@),
{
    let s: String = pattern.iter().collect();
    regex::Regex::new(&s)
}

/// A compiled step pattern: the regular expression's source together with
/// the `regex::Regex` compiled from it. Both fields are private and only
/// `StepPattern::compile` builds a value, so `regex` is always the
/// compilation of `source`.
#[derive(Debug)]
pub struct StepPattern {
    source: Vec<char>,
    regex: regex::Regex,
}

impl View for StepPattern {
    type V = Seq<char>;

    closed spec fn view(&self) -> Seq<char> {
        self.source@
    }
}

/// `regex::Regex::is_match` on a compiled step pattern.
///
/// Trusted: the result is `regex_is_match` of the pattern's source, since
/// the pattern's regex was compiled from that source.
#[verifier::external_body]
fn regex_matches(p: &StepPattern, haystack: &str) -> (r: bool)
    ensures
        r == regex_is_match(p@, haystack@),
{
    p.regex.is_match(haystack)
}

/// The regular expression could not be compiled.
#[derive(Clone, Copy, Debug, PartialEq, Eq, Structural)]
pub struct PatternError;

impl StepPattern {
    /// Compiles a regular expression.
    pub fn compile(source: Vec<char>) -> (r: Result<StepPattern, PatternError>)
        ensures
            r is Ok <==> regex_accepts(source@),
            r matches Ok(p) ==> p@ == source@,
    {
        match compile_regex(&source) {
            Ok(regex) => Ok(StepPattern { source, regex }),
            Err(_) => Err(PatternError),
        }
    }

    /// The regular expression's source text.
    pub fn source(&self) -> (r: String)
        ensures
            r@ == self@,
    {
        crate::text::string_from_chars(&self.source)
    }

    /// Whether the pattern matches `haystack`.
    pub fn is_match(&self, haystack: &str) -> (r: bool)
        ensures
            r == regex_is_match(self@, haystack@),
    {
        regex_matches(self, haystack)
    }
}

// ---------- building the pattern ----------

/// The first index at or after `i` holding `c` (or the length).
pub open spec fn find_from(s: Seq<char>, i: int, c: char) -> int
    decreases s.len() - i,
{
    if i < 0 || i >= s.len() {
        i
    } else if s[i] == c {
        i
    } else {
        find_from(s, i + 1, c)
    }
}

/// The end of the literal token that starts at `i`: the first whitespace,
/// `{` or `(` at or after `i`.
pub open spec fn token_end(s: Seq<char>, i: int) -> int
    decreases s.len() - i,
{
    if i < 0 || i >= s.len() {
        i
    } else if is_ws(s[i]) || s[i] == '{' || s[i] == '(' {
        i
    } else {
        token_end(s, i + 1)
    }
}

/// The pattern of a parameter type.
pub open spec fn parameter_pattern(name: Seq<char>) -> Seq<char> {
    if name == "string"@ {
        "(?:\"[^\"]*\"|'[^']*')"@
    } else if name == "int"@ {
        "-?\\d+"@
    } else if name == "float"@ {
        "-?\\d+(?:\\.\\d+)?"@
    } else if name == "word"@ {
        "\\S+"@
    } else {
        ".+?"@
    }
}

/// A token is an alternation when it contains `/` and no part between
/// slashes is empty.
pub open spec fn is_alternation(tok: Seq<char>) -> bool {
    tok.contains('/') && forall|k: int|
        0 <= k < split_char(tok, '/').len() ==> (#[trigger] split_char(tok, '/')[k]).len() > 0
}

pub open spec fn escape_each(parts: Seq<Seq<char>>) -> Seq<Seq<char>> {
    parts.map_values(|p: Seq<char>| escaped(p))
}

pub open spec fn token_regex(tok: Seq<char>) -> Seq<char> {
    if is_alternation(tok) {
        "(?:"@ + join(escape_each(split_char(tok, '/')), seq!['|']) + ")"@
    } else {
        escaped(tok)
    }
}

/// The pattern for `s[i..]`.
pub open spec fn pattern_from(s: Seq<char>, i: int) -> Seq<char>
    decreases s.len() - i,
{
    if i < 0 || i >= s.len() {
        Seq::empty()
    } else {
        let c = s[i];
        if c == '{' {
            let e = find_from(s, i + 1, '}');
            proof {
                lemma_find_from(s, i + 1, '}');
            }
            if e < s.len() {
                parameter_pattern(s.subrange(i + 1, e)) + pattern_from(s, e + 1)
            } else {
                escaped(seq!['{']) + pattern_from(s, i + 1)
            }
        } else if c == '(' {
            let e = find_from(s, i + 1, ')');
            proof {
                lemma_find_from(s, i + 1, ')');
            }
            if e < s.len() {
                "(?:"@ + escaped(s.subrange(i + 1, e)) + ")?"@ + pattern_from(s, e + 1)
            } else {
                escaped(seq!['(']) + pattern_from(s, i + 1)
            }
        } else if is_ws(c) {
            seq![c] + pattern_from(s, i + 1)
        } else {
            let j = token_end(s, i + 1);
            proof {
                lemma_token_end(s, i + 1);
            }
            token_regex(s.subrange(i, j)) + pattern_from(s, j)
        }
    }
}

/// The anchored regular expression of a Cucumber expression.
pub open spec fn regex_source(expr: Seq<char>) -> Seq<char> {
    "^"@ + pattern_from(expr, 0) + "$"@
}

pub proof fn lemma_find_from(s: Seq<char>, i: int, c: char)
    requires
        0 <= i <= s.len(),
    ensures
        i <= find_from(s, i, c) <= s.len(),
        forall|k: int| i <= k < find_from(s, i, c) ==> (#[trigger] s[k]) != c,
        find_from(s, i, c) < s.len() ==> s[find_from(s, i, c)] == c,
    decreases s.len() - i,
{
    if i < s.len() && s[i] != c {
        lemma_find_from(s, i + 1, c);
    }
}

pub proof fn lemma_token_end(s: Seq<char>, i: int)
    requires
        0 <= i <= s.len(),
    ensures
        i <= token_end(s, i) <= s.len(),
    decreases s.len() - i,
{
    if i < s.len() && !(is_ws(s[i]) || s[i] == '{' || s[i] == '(') {
        lemma_token_end(s, i + 1);
    }
}

fn find_char(s: &Vec<char>, i: usize, c: char) -> (r: usize)
    requires
        i <= s.len(),
    ensures
        r == find_from(s@, i as int, c),
        i <= r <= s.len(),
{
    let mut j = i;
    while j < s.len() && s[j] != c
        invariant
            i <= j <= s.len(),
            find_from(s@, j as int, c) == find_from(s@, i as int, c),
        decreases s.len() - j,
    {
        j += 1;
    }
    j
}

fn parameter_regex(name: &Vec<char>) -> (r: &'static str)
    ensures
        r@ == parameter_pattern(name@),
{
    if crate::text::eq_lit(name, "string") {
        "(?:\"[^\"]*\"|'[^']*')"
    } else if crate::text::eq_lit(name, "int") {
        "-?\\d+"
    } else if crate::text::eq_lit(name, "float") {
        "-?\\d+(?:\\.\\d+)?"
    } else if crate::text::eq_lit(name, "word") {
        "\\S+"
    } else {
        ".+?"
    }
}

fn token_pattern(tok: &Vec<char>) -> (r: Vec<char>)
    ensures
        r@ == token_regex(tok@),
{
    let mut has_slash = false;
    let mut k: usize = 0;
    while k < tok.len()
        invariant
            k <= tok.len(),
            has_slash == (exists|q: int| 0 <= q < k && tok@[q] == '/'),
        decreases tok.len() - k,
    {
        if tok[k] == '/' {
            has_slash = true;
        }
        k += 1;
    }
    proof {
        if has_slash {
            let q = choose|q: int| 0 <= q < tok.len() && tok@[q] == '/';
            assert(tok@.contains('/'));
        }
        if tok@.contains('/') {
            let q = choose|q: int| 0 <= q < tok@.len() && tok@[q] == '/';
            assert(has_slash);
        }
    }
    let parts = split_on(tok, '/');
    let mut all_nonempty = true;
    let mut k: usize = 0;
    while k < parts.len()
        invariant
            k <= parts.len(),
            views(parts@) == split_char(tok@, '/'),
            all_nonempty == (forall|q: int| 0 <= q < k ==> (#[trigger] parts@[q])@.len() > 0),
        decreases parts.len() - k,
    {
        if parts[k].len() == 0 {
            all_nonempty = false;
        }
        k += 1;
    }
    proof {
        assert forall|q: int| 0 <= q < parts.len() implies (#[trigger] parts@[q])@ == split_char(
            tok@,
            '/',
        )[q] by {}
    }
    if has_slash && all_nonempty {
        let mut pieces: Vec<Vec<char>> = Vec::new();
        let mut k: usize = 0;
        while k < parts.len()
            invariant
                k <= parts.len(),
                views(parts@) == split_char(tok@, '/'),
                views(pieces@) == escape_each(split_char(tok@, '/')).take(k as int),
            decreases parts.len() - k,
        {
            let e = regex_escape(&parts[k]);
            proof {
                assert(views(pieces@.push(e)) =~= views(pieces@).push(e@));
                assert(escape_each(split_char(tok@, '/')).take(k + 1) =~= escape_each(
                    split_char(tok@, '/'),
                ).take(k as int).push(e@));
            }
            pieces.push(e);
            k += 1;
        }
        proof {
            assert(escape_each(split_char(tok@, '/')).take(parts.len() as int) =~= escape_each(
                split_char(tok@, '/'),
            ));
        }
        let mut out: Vec<char> = Vec::new();
        push_str(&mut out, "(?:");
        let joined = join_pieces(&pieces);
        push_chars(&mut out, &joined);
        push_str(&mut out, ")");
        out
    } else {
        regex_escape(tok)
    }
}

fn join_pieces(ws: &Vec<Vec<char>>) -> (r: Vec<char>)
    ensures
        r@ == join(views(ws@), seq!['|']),
{
    let ghost v = views(ws@);
    let mut r: Vec<char> = Vec::new();
    if ws.len() == 0 {
        return r;
    }
    push_chars(&mut r, &ws[0]);
    proof {
        assert(v.take(1).drop_last().len() == 0);
        assert(r@ == join(v.take(1), seq!['|']));
    }
    let mut k: usize = 1;
    while k < ws.len()
        invariant
            1 <= k <= ws.len(),
            v == views(ws@),
            r@ == join(v.take(k as int), seq!['|']),
        decreases ws.len() - k,
    {
        r.push('|');
        push_chars(&mut r, &ws[k]);
        proof {
            assert(v.take(k + 1).drop_last() == v.take(k as int));
            assert(v.take(k + 1).last() == ws@[k as int]@);
            assert(r@ =~= join(v.take(k as int), seq!['|']) + seq!['|'] + ws@[k as int]@);
        }
        k += 1;
    }
    proof {
        assert(v.take(ws.len() as int) == v);
    }
    r
}

/// The anchored regular expression of a Cucumber expression, as text.
pub fn regex_source_of(expr: &str) -> (r: String)
    ensures
        r@ == regex_source(expr@),
{
    crate::text::string_from_chars(&build_source(expr))
}

fn build_source(expr: &str) -> (r: Vec<char>)
    ensures
        r@ == regex_source(expr@),
{
    let chars = chars_of(expr);
    let ghost s = chars@;
    let mut out: Vec<char> = Vec::new();
    push_str(&mut out, "^");
    let ghost head = out@;
    let mut i: usize = 0;
    while i < chars.len()
        invariant
            i <= chars.len(),
            s == chars@,
            head == "^"@,
            out@ + pattern_from(s, i as int) == head + pattern_from(s, 0),
        decreases chars.len() - i,
    {
        let c = chars[i];
        let ghost before = out@;
        if c == '{' {
            let e = find_char(&chars, i + 1, '}');
            if e < chars.len() {
                let name = slice(&chars, i + 1, e);
                push_str(&mut out, parameter_regex(&name));
                proof {
                    assert(out@ + pattern_from(s, e + 1) =~= before + pattern_from(s, i as int));
                }
                i = e + 1;
                continue;
            }
            let brace = vec!['{'];
            proof {
                assert(brace@ == seq!['{']);
            }
            let e = regex_escape(&brace);
            push_chars(&mut out, &e);
            proof {
                assert(out@ + pattern_from(s, i + 1) =~= before + pattern_from(s, i as int));
            }
            i += 1;
            continue;
        }
        if c == '(' {
            let e = find_char(&chars, i + 1, ')');
            if e < chars.len() {
                let inside = slice(&chars, i + 1, e);
                push_str(&mut out, "(?:");
                let esc = regex_escape(&inside);
                push_chars(&mut out, &esc);
                push_str(&mut out, ")?");
                proof {
                    assert(out@ + pattern_from(s, e + 1) =~= before + pattern_from(s, i as int));
                }
                i = e + 1;
                continue;
            }
            let paren = vec!['('];
            proof {
                assert(paren@ == seq!['(']);
            }
            let e = regex_escape(&paren);
            push_chars(&mut out, &e);
            proof {
                assert(out@ + pattern_from(s, i + 1) =~= before + pattern_from(s, i as int));
            }
            i += 1;
            continue;
        }
        if is_whitespace(c) {
            out.push(c);
            proof {
                assert(out@ + pattern_from(s, i + 1) =~= before + pattern_from(s, i as int));
            }
            i += 1;
            continue;
        }
        let mut j = i + 1;
        while j < chars.len() && !(is_whitespace(chars[j]) || chars[j] == '{' || chars[j] == '(')
            invariant
                i < j <= chars.len(),
                s == chars@,
                token_end(s, j as int) == token_end(s, i + 1),
            decreases chars.len() - j,
        {
            j += 1;
        }
        let tok = slice(&chars, i, j);
        let p = token_pattern(&tok);
        push_chars(&mut out, &p);
        proof {
            assert(out@ + pattern_from(s, j as int) =~= before + pattern_from(s, i as int));
        }
        i = j;
    }
    push_str(&mut out, "$");
    proof {
        assert(out@ =~= head + pattern_from(s, 0) + "$"@);
    }
    out
}

/// Turns a Cucumber expression into an anchored regular expression and
/// compiles it.
pub fn expression_to_regex(expr: &str) -> (r: Result<StepPattern, PatternError>)
    ensures
        r is Ok <==> regex_accepts(regex_source(expr@)),
        r matches Ok(p) ==> p@ == regex_source(expr@),
{
    let source = build_source(expr);
    StepPattern::compile(source)
}

} // verus!
