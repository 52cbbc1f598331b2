//! The Gherkin formatter.
//!
//! `format_gherkin_with` re-indents structural lines to the canonical 2-space
//! nesting, aligns table regions, re-emits `@tag` lines at the indent of the
//! header they precede, collapses runs of blank lines, and leaves doc-string
//! contents verbatim. Its result is stated by `formatted`, a line-by-line
//! layout (`layout_from`) followed by `render`.

use vstd::prelude::*;
use crate::classify::{
    is_background, is_blank, is_docstring_marker, is_feature, is_rule, is_scenario, is_table,
    is_tag, leading_indent, line_is_background, line_is_blank, line_is_docstring_marker,
    line_is_examples, line_is_feature, line_is_rule, line_is_scenario, line_is_step, line_is_table,
    line_is_tag, line_leading_indent,
};
use crate::table::{format_table, table_rows};
use crate::text::{
    chars_of, eq_lit, lemma_skip_non_ws, lemma_skip_ws, push_chars, push_spaces, push_str,
    skip_non_ws, skip_non_ws_from, skip_ws, skip_ws_from, slice, spaces, split_char, split_on,
    trim, trim_chars, views,
};

verus! {

/// Formatting options.
#[derive(Clone, Copy, Debug, PartialEq, Eq, Structural)]
pub struct Config {
    /// Emit each `@tag` on its own line instead of joining them on one.
    pub tags_per_line: bool,
}

impl Default for Config {
    fn default() -> (r: Self)
        ensures
            r.tags_per_line == false,
    {
        Config { tags_per_line: false }
    }
}

/// What the command line asks for.
#[derive(Clone, Copy, Debug, PartialEq, Eq, Structural)]
pub enum CliRequest {
    /// Format standard input with these options.
    Format(Config),
    /// Print the usage text.
    Help,
}

pub enum ArgsOutcome {
    Format(bool),
    Help,
    Unknown(Seq<char>),
}

/// Reading the arguments from `i` on: `--tags-per-line` sets the option,
/// `-h`/`--help` asks for help, anything else is refused; the first argument
/// that is not `--tags-per-line` decides.
pub open spec fn args_outcome(args: Seq<Seq<char>>, i: int, tags_per_line: bool) -> ArgsOutcome
    decreases args.len() - i,
{
    if i < 0 || i >= args.len() {
        ArgsOutcome::Format(tags_per_line)
    } else if args[i] == "--tags-per-line"@ {
        args_outcome(args, i + 1, true)
    } else if args[i] == "-h"@ || args[i] == "--help"@ {
        ArgsOutcome::Help
    } else {
        ArgsOutcome::Unknown(args[i])
    }
}

pub open spec fn string_views(v: Seq<String>) -> Seq<Seq<char>> {
    v.map_values(|s: String| s@)
}

impl Config {
    /// Reads the command-line arguments (without the program name).
    pub fn from_args(args: &Vec<String>) -> (r: Result<CliRequest, String>)
        ensures
            match args_outcome(string_views(args@), 0, false) {
                ArgsOutcome::Format(b) => r == Ok::<CliRequest, String>(
                    CliRequest::Format(Config { tags_per_line: b }),
                ),
                ArgsOutcome::Help => r == Ok::<CliRequest, String>(CliRequest::Help),
                ArgsOutcome::Unknown(a) => r matches Err(e) && e@ == "unknown argument: "@ + a,
            },
    {
        let ghost av = string_views(args@);
        let mut cfg = Config::default();
        let mut k: usize = 0;
        while k < args.len()
            invariant
                k <= args.len(),
                av == string_views(args@),
                args_outcome(av, 0, false) == args_outcome(av, k as int, cfg.tags_per_line),
            decreases args.len() - k,
        {
            let a = chars_of(args[k].as_str());
            proof {
                assert(av[k as int] == a@);
            }
            if eq_lit(&a, "--tags-per-line") {
                cfg.tags_per_line = true;
            } else if eq_lit(&a, "-h") || eq_lit(&a, "--help") {
                return Ok(CliRequest::Help);
            } else {
                let mut msg: Vec<char> = Vec::new();
                push_str(&mut msg, "unknown argument: ");
                push_chars(&mut msg, &a);
                return Err(crate::text::string_from_chars(&msg));
            }
            k += 1;
        }
        Ok(CliRequest::Format(cfg))
    }
}

// ---------- joining ----------

/// The pieces of `ws` separated by `sep`.
pub open spec fn join(ws: Seq<Seq<char>>, sep: Seq<char>) -> Seq<char>
    decreases ws.len(),
{
    if ws.len() == 0 {
        Seq::empty()
    } else if ws.len() == 1 {
        ws[0]
    } else {
        join(ws.drop_last(), sep) + sep + ws.last()
    }
}

fn join_chars(ws: &Vec<Vec<char>>, sep: char) -> (r: Vec<char>)
    ensures
        r@ == join(views(ws@), seq![sep]),
{
    let ghost v = views(ws@);
    let mut r: Vec<char> = Vec::new();
    if ws.len() == 0 {
        return r;
    }
    push_chars(&mut r, &ws[0]);
    proof {
        assert(v.take(1).drop_last().len() == 0);
        assert(r@ == join(v.take(1), seq![sep]));
    }
    let mut k: usize = 1;
    while k < ws.len()
        invariant
            1 <= k <= ws.len(),
            v == views(ws@),
            r@ == join(v.take(k as int), seq![sep]),
        decreases ws.len() - k,
    {
        r.push(sep);
        push_chars(&mut r, &ws[k]);
        proof {
            assert(v.take(k + 1).drop_last() == v.take(k as int));
            assert(v.take(k + 1).last() == ws@[k as int]@);
            assert(r@ =~= join(v.take(k as int), seq![sep]) + seq![sep] + ws@[k as int]@);
        }
        k += 1;
    }
    proof {
        assert(v.take(ws.len() as int) == v);
    }
    r
}

// ---------- the emitter ----------

/// What has been emitted: the output lines, which of them are doc-string
/// content, whether a blank line is owed before the next line, and whether
/// nothing has been emitted yet.
pub struct Emit {
    pub lines: Seq<Seq<char>>,
    pub body: Seq<bool>,
    pub pending_blank: bool,
    pub at_start: bool,
}

pub open spec fn emit_new() -> Emit {
    Emit { lines: Seq::empty(), body: Seq::empty(), pending_blank: false, at_start: true }
}

/// Emits a formatted line, preceded by one blank line if blanks were seen
/// since the last line (but not at the start).
pub open spec fn emit_line(e: Emit, line: Seq<char>) -> Emit {
    if e.pending_blank && !e.at_start {
        Emit {
            lines: e.lines.push(Seq::empty()).push(line),
            body: e.body.push(false).push(false),
            pending_blank: false,
            at_start: false,
        }
    } else {
        Emit {
            lines: e.lines.push(line),
            body: e.body.push(false),
            pending_blank: false,
            at_start: false,
        }
    }
}

/// Emits a doc-string content line; it is never dropped or merged.
pub open spec fn emit_verbatim(e: Emit, line: Seq<char>) -> Emit {
    if e.pending_blank && !e.at_start {
        Emit {
            lines: e.lines.push(Seq::empty()).push(line),
            body: e.body.push(false).push(true),
            pending_blank: false,
            at_start: false,
        }
    } else {
        Emit {
            lines: e.lines.push(line),
            body: e.body.push(true),
            pending_blank: e.pending_blank,
            at_start: false,
        }
    }
}

/// Records a blank source line; leading blanks are dropped.
pub open spec fn emit_blank(e: Emit) -> Emit {
    if !e.at_start {
        Emit { pending_blank: true, ..e }
    } else {
        e
    }
}

pub open spec fn emit_all(e: Emit, ls: Seq<Seq<char>>) -> Emit
    decreases ls.len(),
{
    if ls.len() == 0 {
        e
    } else {
        emit_line(emit_all(e, ls.drop_last()), ls.last())
    }
}

/// The output text: the lines joined by newlines, ending in exactly the
/// newline that the last line lacks (a lone newline when nothing was emitted).
pub open spec fn render(lines: Seq<Seq<char>>) -> Seq<char> {
    let s = join(lines, seq!['\n']);
    if s.len() == 0 {
        seq!['\n']
    } else if s.last() != '\n' {
        s.push('\n')
    } else {
        s
    }
}

struct Emitter {
    out: Vec<Vec<char>>,
    pending_blank: bool,
    at_start: bool,
    body: Ghost<Seq<bool>>,
}

impl View for Emitter {
    type V = Emit;

    closed spec fn view(&self) -> Emit {
        Emit {
            lines: views(self.out@),
            body: self.body@,
            pending_blank: self.pending_blank,
            at_start: self.at_start,
        }
    }
}

impl Emitter {
    fn new() -> (r: Self)
        ensures
            r@ == emit_new(),
    {
        let r = Emitter { out: Vec::new(), pending_blank: false, at_start: true, body: Ghost(Seq::empty()) };
        proof {
            assert(views(r.out@) =~= Seq::<Seq<char>>::empty());
        }
        r
    }

    fn push(&mut self, line: Vec<char>)
        ensures
            final(self)@ == emit_line(old(self)@, line@),
    {
        if self.pending_blank && !self.at_start {
            let ghost o = self.out@;
            let empty: Vec<char> = Vec::new();
            self.out.push(empty);
            self.body = Ghost(self.body@.push(false));
            proof {
                assert(views(o.push(empty)) =~= views(o).push(Seq::empty()));
            }
        }
        self.pending_blank = false;
        self.at_start = false;
        let ghost o = self.out@;
        self.out.push(line);
        self.body = Ghost(self.body@.push(false));
        proof {
            assert(views(o.push(line)) =~= views(o).push(line@));
        }
    }

    fn push_verbatim(&mut self, line: Vec<char>)
        ensures
            final(self)@ == emit_verbatim(old(self)@, line@),
    {
        if self.pending_blank && !self.at_start {
            let ghost o = self.out@;
            let empty: Vec<char> = Vec::new();
            self.out.push(empty);
            self.body = Ghost(self.body@.push(false));
            self.pending_blank = false;
            proof {
                assert(views(o.push(empty)) =~= views(o).push(Seq::empty()));
            }
        }
        self.at_start = false;
        let ghost o = self.out@;
        self.out.push(line);
        self.body = Ghost(self.body@.push(true));
        proof {
            assert(views(o.push(line)) =~= views(o).push(line@));
        }
    }

    fn push_blank(&mut self)
        ensures
            final(self)@ == emit_blank(old(self)@),
    {
        if !self.at_start {
            self.pending_blank = true;
        }
    }

    fn push_all(&mut self, ls: Vec<Vec<char>>)
        ensures
            final(self)@ == emit_all(old(self)@, views(ls@)),
    {
        let ghost v = views(ls@);
        let mut k: usize = 0;
        while k < ls.len()
            invariant
                k <= ls.len(),
                v == views(ls@),
                self@ == emit_all(old(self)@, v.take(k as int)),
            decreases ls.len() - k,
        {
            let line = slice(&ls[k], 0, ls[k].len());
            proof {
                assert(v.take(k + 1).drop_last() == v.take(k as int));
                assert(ls@[k as int]@.subrange(0, ls@[k as int]@.len() as int) == ls@[k as int]@);
            }
            self.push(line);
            k += 1;
        }
        proof {
            assert(v.take(ls.len() as int) == v);
        }
    }

    fn finish(self) -> (r: Vec<char>)
        ensures
            r@ == render(self@.lines),
    {
        let mut s = join_chars(&self.out, '\n');
        if s.len() > 0 && s[s.len() - 1] != '\n' {
            s.push('\n');
        }
        if s.len() == 0 {
            s.push('\n');
        }
        s
    }
}

// ---------- tags ----------

/// The whitespace-separated words of `s[i..]`, as `str::split_whitespace`.
pub open spec fn words_from(s: Seq<char>, i: int) -> Seq<Seq<char>>
    decreases s.len() - i,
{
    if i < 0 || i >= s.len() {
        Seq::empty()
    } else {
        let a = skip_ws(s, i);
        if a >= s.len() {
            Seq::empty()
        } else {
            let b = skip_non_ws(s, a + 1);
            proof {
                lemma_skip_ws(s, i);
                lemma_skip_non_ws(s, a + 1);
            }
            seq![s.subrange(a, b)] + words_from(s, b)
        }
    }
}

pub open spec fn words(s: Seq<char>) -> Seq<Seq<char>> {
    words_from(s, 0)
}

/// Every word of every pending tag line, in order.
pub open spec fn all_words(tags: Seq<Seq<char>>) -> Seq<Seq<char>>
    decreases tags.len(),
{
    if tags.len() == 0 {
        Seq::empty()
    } else {
        all_words(tags.drop_last()) + words(tags.last())
    }
}

pub open spec fn prefix_each(indent: Seq<char>, ws: Seq<Seq<char>>) -> Seq<Seq<char>> {
    ws.map_values(|w: Seq<char>| indent + w)
}

/// Emits the pending tags at `indent`: one line with the tags joined by
/// single spaces, or one line per tag.
pub open spec fn flush(e: Emit, tags: Seq<Seq<char>>, indent: Seq<char>, per_line: bool) -> Emit {
    if tags.len() == 0 {
        e
    } else if per_line {
        emit_all(e, prefix_each(indent, all_words(tags)))
    } else {
        emit_line(e, indent + join(all_words(tags), seq![' ']))
    }
}

fn words_of(s: &Vec<char>) -> (r: Vec<Vec<char>>)
    ensures
        views(r@) == words(s@),
{
    let mut r: Vec<Vec<char>> = Vec::new();
    let mut i: usize = 0;
    proof {
        assert(views(r@) =~= Seq::<Seq<char>>::empty());
    }
    loop
        invariant
            i <= s.len(),
            views(r@) + words_from(s@, i as int) == words(s@),
        decreases s.len() - i,
    {
        proof {
            lemma_skip_ws(s@, i as int);
        }
        let a = skip_ws_from(s, i);
        if a == s.len() {
            proof {
                assert(words_from(s@, i as int) =~= Seq::<Seq<char>>::empty());
                assert(views(r@) + Seq::<Seq<char>>::empty() =~= views(r@));
            }
            return r;
        }
        proof {
            lemma_skip_non_ws(s@, a + 1);
        }
        let b = skip_non_ws_from(s, a + 1);
        let w = slice(s, a, b);
        proof {
            assert(views(r@.push(w)) =~= views(r@).push(w@));
            assert(views(r@).push(w@) + words_from(s@, b as int) =~= views(r@) + (seq![w@]
                + words_from(s@, b as int)));
        }
        r.push(w);
        i = b;
    }
}

fn all_words_of(tags: &Vec<Vec<char>>) -> (r: Vec<Vec<char>>)
    ensures
        views(r@) == all_words(views(tags@)),
{
    let ghost t = views(tags@);
    let mut r: Vec<Vec<char>> = Vec::new();
    proof {
        assert(views(r@) =~= Seq::<Seq<char>>::empty());
        assert(t.take(0) =~= Seq::<Seq<char>>::empty());
    }
    let mut k: usize = 0;
    while k < tags.len()
        invariant
            k <= tags.len(),
            t == views(tags@),
            views(r@) == all_words(t.take(k as int)),
        decreases tags.len() - k,
    {
        let ws = words_of(&tags[k]);
        let ghost before = views(r@);
        let mut j: usize = 0;
        while j < ws.len()
            invariant
                j <= ws.len(),
                views(r@) == before + views(ws@).take(j as int),
            decreases ws.len() - j,
        {
            let w = slice(&ws[j], 0, ws[j].len());
            proof {
                assert(ws@[j as int]@.subrange(0, ws@[j as int]@.len() as int) == ws@[j as int]@);
                assert(views(r@.push(w)) =~= views(r@).push(w@));
                assert(views(ws@).take(j + 1) =~= views(ws@).take(j as int).push(w@));
            }
            r.push(w);
            j += 1;
        }
        proof {
            assert(views(ws@).take(ws.len() as int) == views(ws@));
            assert(t.take(k + 1).drop_last() == t.take(k as int));
            assert(t.take(k + 1).last() == tags@[k as int]@);
        }
        k += 1;
    }
    proof {
        assert(t.take(tags.len() as int) == t);
    }
    r
}

fn concat(a: &Vec<char>, b: &Vec<char>) -> (r: Vec<char>)
    ensures
        r@ == a@ + b@,
{
    let mut r = slice(a, 0, a.len());
    proof {
        assert(a@.subrange(0, a@.len() as int) == a@);
    }
    push_chars(&mut r, b);
    r
}

/// Emits and clears the pending tags (see `flush`).
fn flush_tags(out: &mut Emitter, pending: &mut Vec<Vec<char>>, indent: &Vec<char>, config: &Config)
    ensures
        final(out)@ == flush(old(out)@, views(old(pending)@), indent@, config.tags_per_line),
        final(pending)@.len() == 0,
{
    if pending.len() == 0 {
        return;
    }
    let tags = all_words_of(pending);
    pending.clear();
    if config.tags_per_line {
        let mut lines: Vec<Vec<char>> = Vec::new();
        let mut k: usize = 0;
        while k < tags.len()
            invariant
                k <= tags.len(),
                views(lines@) == prefix_each(indent@, views(tags@)).take(k as int),
            decreases tags.len() - k,
        {
            let l = concat(indent, &tags[k]);
            proof {
                assert(views(lines@.push(l)) =~= views(lines@).push(l@));
                assert(prefix_each(indent@, views(tags@)).take(k + 1) =~= prefix_each(
                    indent@,
                    views(tags@),
                ).take(k as int).push(l@));
            }
            lines.push(l);
            k += 1;
        }
        proof {
            assert(prefix_each(indent@, views(tags@)).take(tags.len() as int) =~= prefix_each(
                indent@,
                views(tags@),
            ));
        }
        out.push_all(lines);
    } else {
        let joined = join_chars(&tags, ' ');
        out.push(concat(indent, &joined));
    }
}

// ---------- layout ----------

/// The formatter's state between lines: whether a `Rule:` encloses the
/// current block, the nesting depth of the current block's children, whether
/// a header has been seen, whether a doc-string is open, the pending tag
/// lines, and what has been emitted.
pub struct Layout {
    pub has_rule: bool,
    pub depth: nat,
    pub seen_header: bool,
    pub in_doc: bool,
    pub tags: Seq<Seq<char>>,
    pub em: Emit,
}

pub open spec fn layout_new() -> Layout {
    Layout {
        has_rule: false,
        depth: 0,
        seen_header: false,
        in_doc: false,
        tags: Seq::empty(),
        em: emit_new(),
    }
}

/// Two spaces per nesting level.
pub open spec fn indent(d: nat) -> Seq<char> {
    spaces(2 * d)
}

/// The lines of a document: its `\n`-separated pieces, without the empty
/// piece after a final newline.
pub open spec fn input_lines(s: Seq<char>) -> Seq<Seq<char>> {
    let raw = split_char(s, '\n');
    if raw.last().len() == 0 {
        raw.drop_last()
    } else {
        raw
    }
}

/// The depth at which a structural or body line is emitted: `Feature:` at 0,
/// `Rule:` at 1, `Background:`/`Scenario:` at 1 (2 under a `Rule:`), and
/// every other line at the current child depth.
pub open spec fn line_depth(st: Layout, l: Seq<char>) -> nat {
    if is_feature(l) {
        0
    } else if is_rule(l) {
        1
    } else if is_background(l) || is_scenario(l) {
        if st.has_rule {
            2
        } else {
            1
        }
    } else {
        st.depth
    }
}

/// The state change after a header line has been emitted.
pub open spec fn after_header(st: Layout, l: Seq<char>) -> Layout {
    if is_feature(l) {
        Layout { has_rule: false, depth: 1, seen_header: true, ..st }
    } else if is_rule(l) {
        Layout { has_rule: true, depth: 2, seen_header: true, ..st }
    } else if is_background(l) || is_scenario(l) {
        Layout {
            depth: if st.has_rule {
                3
            } else {
                2
            },
            seen_header: true,
            ..st
        }
    } else {
        st
    }
}

/// The end of the run of table lines that starts at `i`.
pub open spec fn table_end(ls: Seq<Seq<char>>, i: int) -> int
    decreases ls.len() - i,
{
    if i < 0 || i >= ls.len() {
        i
    } else if is_table(ls[i]) {
        table_end(ls, i + 1)
    } else {
        i
    }
}

pub proof fn lemma_table_end(ls: Seq<Seq<char>>, i: int)
    requires
        0 <= i <= ls.len(),
    ensures
        i <= table_end(ls, i) <= ls.len(),
        forall|k: int| i <= k < table_end(ls, i) ==> is_table(#[trigger] ls[k]),
        table_end(ls, i) < ls.len() ==> !is_table(ls[table_end(ls, i)]),
    decreases ls.len() - i,
{
    if i < ls.len() && is_table(ls[i]) {
        lemma_table_end(ls, i + 1);
    }
}

/// The indent of a table region: one level below the current block, or
/// the region's own leading whitespace before any header.
pub open spec fn table_indent(st: Layout, l: Seq<char>) -> Seq<char> {
    if st.seen_header {
        indent(st.depth + 1)
    } else {
        leading_indent(l)
    }
}

/// Lays out the lines `ls[i..]` starting from state `st`.
pub open spec fn layout_from(ls: Seq<Seq<char>>, i: int, st: Layout, per_line: bool) -> Layout
    decreases ls.len() - i,
{
    if i < 0 || i >= ls.len() {
        st
    } else {
        let l = ls[i];
        if st.in_doc {
            if is_docstring_marker(l) {
                let em = emit_line(st.em, indent(st.depth + 1) + trim(l));
                layout_from(ls, i + 1, Layout { in_doc: false, em, ..st }, per_line)
            } else {
                layout_from(ls, i + 1, Layout { em: emit_verbatim(st.em, l), ..st }, per_line)
            }
        } else if is_blank(l) {
            layout_from(ls, i + 1, Layout { em: emit_blank(st.em), ..st }, per_line)
        } else if is_tag(l) {
            layout_from(ls, i + 1, Layout { tags: st.tags.push(trim(l)), ..st }, per_line)
        } else if is_table(l) {
            let j = table_end(ls, i);
            let ind = table_indent(st, l);
            let em = emit_all(flush(st.em, st.tags, ind, per_line), table_rows(ls.subrange(i, j), ind));
            proof {
                lemma_table_end(ls, i + 1);
            }
            layout_from(ls, j, Layout { tags: Seq::empty(), em, ..st }, per_line)
        } else if is_docstring_marker(l) {
            let ind = indent(st.depth + 1);
            let em = emit_line(flush(st.em, st.tags, ind, per_line), ind + trim(l));
            layout_from(ls, i + 1, Layout { tags: Seq::empty(), in_doc: true, em, ..st }, per_line)
        } else {
            let ind = indent(line_depth(st, l));
            let em = emit_line(flush(st.em, st.tags, ind, per_line), ind + trim(l));
            layout_from(
                ls,
                i + 1,
                after_header(Layout { tags: Seq::empty(), em, ..st }, l),
                per_line,
            )
        }
    }
}

/// Everything emitted for a document, including tags left dangling at the end.
pub open spec fn layout(input: Seq<char>, per_line: bool) -> Emit {
    let st = layout_from(input_lines(input), 0, layout_new(), per_line);
    flush(st.em, st.tags, indent(st.depth), per_line)
}

/// The formatted document.
pub open spec fn formatted(input: Seq<char>, per_line: bool) -> Seq<char> {
    render(layout(input, per_line).lines)
}

fn make_indent(d: usize) -> (r: Vec<char>)
    requires
        d <= 4,
    ensures
        r@ == indent(d as nat),
{
    let mut r: Vec<char> = Vec::new();
    push_spaces(&mut r, 2 * d);
    proof {
        assert(r@ =~= indent(d as nat));
    }
    r
}

/// Format a Gherkin document with the default options.
pub fn format_gherkin(input: &str) -> (r: String)
    ensures
        r@ == formatted(input@, false),
{
    format_gherkin_with(input, &Config::default())
}

/// Format a Gherkin document. In order, this:
///
/// 1. Re-indents every structural line to the canonical 2-space nesting:
///    `Feature:` at col 0, `Rule:` at 2, `Scenario:`/`Background:` at 2
///    (or 4 under a `Rule:`), steps and `Examples:` at 4 (or 6), tables
///    and doc-string markers one level deeper than that.
/// 2. Column-aligns every contiguous `|…|` table region — pipes line up,
///    numeric body columns right-align, text columns left-align.
/// 3. Buffers `@tag` lines and emits them at the indent of the header
///    they precede, joined on one line with single spaces (or one per line).
/// 4. Collapses runs of blank lines to at most one, strips leading and
///    trailing blanks, and terminates the output with a newline.
/// 5. Leaves doc-string *contents* (lines between `"""` / ```` ``` ````
///    markers) verbatim — no re-indent, no blank-collapse.
pub fn format_gherkin_with(input: &str, config: &Config) -> (r: String)
    ensures
        r@ == formatted(input@, config.tags_per_line),
{
    let chars = chars_of(input);
    let mut lines = split_on(&chars, '\n');
    let ghost raw = views(lines@);
    proof {
        crate::text::lemma_split_char_len(input@, '\n');
    }
    if lines[lines.len() - 1].len() == 0 {
        lines.pop();
        proof {
            assert(views(lines@) =~= raw.drop_last());
        }
    }
    let ghost ls = views(lines@);
    let ghost per_line = config.tags_per_line;
    proof {
        assert(ls == input_lines(input@));
    }
    let mut emitter = Emitter::new();
    let mut has_rule = false;
    let mut content_depth: usize = 0;
    let mut seen_header = false;
    let mut in_docstring = false;
    let mut pending_tags: Vec<Vec<char>> = Vec::new();
    proof {
        assert(views(pending_tags@) =~= Seq::<Seq<char>>::empty());
    }
    let mut i: usize = 0;
    while i < lines.len()
        invariant
            i <= lines.len(),
            ls == views(lines@),
            per_line == config.tags_per_line,
            content_depth <= 3,
            layout_from(ls, 0, layout_new(), per_line) == layout_from(
                ls,
                i as int,
                Layout {
                    has_rule,
                    depth: content_depth as nat,
                    seen_header,
                    in_doc: in_docstring,
                    tags: views(pending_tags@),
                    em: emitter@,
                },
                per_line,
            ),
        decreases lines.len() - i,
    {
        let line = &lines[i];
        proof {
            assert(ls[i as int] == line@);
        }
        if in_docstring {
            if line_is_docstring_marker(line) {
                in_docstring = false;
                let ind = make_indent(content_depth + 1);
                let t = trim_chars(line);
                emitter.push(concat(&ind, &t));
            } else {
                emitter.push_verbatim(line.clone());
            }
            i += 1;
            continue;
        }
        if line_is_blank(line) {
            emitter.push_blank();
            i += 1;
            continue;
        }
        if line_is_tag(line) {
            let t = trim_chars(line);
            proof {
                assert(views(pending_tags@.push(t)) =~= views(pending_tags@).push(t@));
            }
            pending_tags.push(t);
            i += 1;
            continue;
        }
        if line_is_table(line) {
            let start = i;
            while i < lines.len() && line_is_table(&lines[i])
                invariant
                    start <= i <= lines.len(),
                    ls == views(lines@),
                    start < lines.len(),
                    table_end(ls, i as int) == table_end(ls, start as int),
                decreases lines.len() - i,
            {
                proof {
                    assert(ls[i as int] == lines@[i as int]@);
                }
                i += 1;
            }
            proof {
                if i < lines.len() {
                    assert(ls[i as int] == lines@[i as int]@);
                }
                assert(table_end(ls, i as int) == i);
            }
            let ind = if seen_header {
                make_indent(content_depth + 1)
            } else {
                line_leading_indent(&lines[start])
            };
            flush_tags(&mut emitter, &mut pending_tags, &ind, config);
            let mut region: Vec<Vec<char>> = Vec::new();
            let mut k = start;
            while k < i
                invariant
                    start <= k <= i <= lines.len(),
                    ls == views(lines@),
                    views(region@) == ls.subrange(start as int, k as int),
                decreases i - k,
            {
                let row = slice(&lines[k], 0, lines[k].len());
                proof {
                    assert(lines@[k as int]@.subrange(0, lines@[k as int]@.len() as int)
                        == lines@[k as int]@);
                    assert(views(region@.push(row)) =~= views(region@).push(row@));
                    assert(ls.subrange(start as int, k + 1) =~= ls.subrange(start as int, k as int).push(
                        ls[k as int],
                    ));
                }
                region.push(row);
                k += 1;
            }
            let rows = format_table(&region, &ind);
            emitter.push_all(rows);
            proof {
                assert(views(pending_tags@) =~= Seq::<Seq<char>>::empty());
            }
            continue;
        }
        if line_is_docstring_marker(line) {
            let ind = make_indent(content_depth + 1);
            flush_tags(&mut emitter, &mut pending_tags, &ind, config);
            let t = trim_chars(line);
            emitter.push(concat(&ind, &t));
            in_docstring = true;
            i += 1;
            proof {
                assert(views(pending_tags@) =~= Seq::<Seq<char>>::empty());
            }
            continue;
        }
        // Structural or body line: compute its depth, flush the pending tag
        // block at the same depth, then emit.
        let feature = line_is_feature(line);
        let rule = line_is_rule(line);
        let section = line_is_background(line) || line_is_scenario(line);
        let depth = if feature {
            0
        } else if rule {
            1
        } else if section {
            if has_rule {
                2
            } else {
                1
            }
        } else if line_is_examples(line) || line_is_step(line) {
            content_depth
        } else {
            // Comments and free-text descriptions: indent to the current
            // child level of the enclosing block.
            content_depth
        };
        let ind = make_indent(depth);
        flush_tags(&mut emitter, &mut pending_tags, &ind, config);
        let t = trim_chars(line);
        emitter.push(concat(&ind, &t));
        // State transitions happen after emission.
        if feature {
            has_rule = false;
            content_depth = 1;
            seen_header = true;
        } else if rule {
            has_rule = true;
            content_depth = 2;
            seen_header = true;
        } else if section {
            content_depth = if has_rule {
                3
            } else {
                2
            };
            seen_header = true;
        }
        proof {
            assert(views(pending_tags@) =~= Seq::<Seq<char>>::empty());
        }
        i += 1;
    }
    // Dangling tags at the end of the document are kept.
    if pending_tags.len() > 0 {
        let ind = make_indent(content_depth);
        flush_tags(&mut emitter, &mut pending_tags, &ind, config);
    }
    let out = emitter.finish();
    crate::text::string_from_chars(&out)
}

} // verus!
