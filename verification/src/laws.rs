//! Properties of the formatter, the tables, the index and the Cucumber
//! expressions that hold for every input, proved from the functions' specifications.

use vstd::prelude::*;
use crate::classify::{is_blank, is_docstring_marker, is_table, is_tag, leading_indent};
use crate::formatter::{
    all_words, emit_all, emit_blank, emit_line, emit_new, emit_verbatim, flush, formatted, indent,
    input_lines, join, layout, layout_from, layout_new, lemma_table_end, prefix_each, render,
    table_end, words, words_from, Emit, Layout,
};
use crate::classify::{is_background, is_feature, is_rule, is_scenario};
use crate::formatter::{after_header, line_depth};
use crate::indexer::{
    after_drop, after_scan, calls_elsewhere, defs_elsewhere, feature_calls, paths_equal,
    source_defs, CallView, DefLang, DefView, IndexView,
};
use crate::expression::{
    find_from, lemma_find_from, lemma_token_end, parameter_pattern, pattern_from, regex_source,
    token_end,
};
use crate::table::{
    cell_seg, col_numeric, lemma_col_width, lemma_max_cols, lemma_split_cells_len, numerics,
    parse_rows, render_row, row_cells, segs, table_rows, widths,
};
use crate::text::{has_prefix, spaces, split_char, text_lines};
use crate::table::{
    all_digits, cell_region, digit_run, exponent_mark, is_digit, is_float_literal, is_number_text,
    split_cells_from, valid_decimal,
};
use crate::server::{
    call_at_from, calls_matching, def_at_from, definitions_of, defs_matching, references_of,
    sibling_calls, LocView,
};
use crate::text::{
    is_ws, lemma_skip_non_ws, lemma_skip_ws, lemma_trail_end, skip_non_ws, skip_ws, trail_end,
    trim, trim_end, trim_start,
};

verus! {

// ---------- output termination ----------

/// The formatted text is never empty and always ends with a newline.
pub proof fn law_output_ends_with_newline(input: Seq<char>, per_line: bool)
    ensures
        formatted(input, per_line).len() > 0,
        formatted(input, per_line).last() == '\n',
{
}

// ---------- blank lines ----------

/// The shape of emitted output that blank-line collapsing guarantees.
pub open spec fn collapsed(e: Emit) -> bool {
    &&& e.lines.len() == e.body.len()
    &&& e.at_start <==> e.lines.len() == 0
    &&& e.pending_blank ==> !e.at_start
    &&& e.lines.len() > 0 ==> e.lines[0].len() > 0
    &&& e.lines.len() > 0 ==> e.lines.last().len() > 0 || e.body.last()
    &&& forall|i: int|
        0 <= i < e.lines.len() - 1 && (#[trigger] e.lines[i]).len() == 0 && e.lines[i + 1].len()
            == 0 ==> e.body[i] || e.body[i + 1]
}

proof fn lemma_emit_line_collapsed(e: Emit, x: Seq<char>)
    requires
        collapsed(e),
        x.len() > 0,
    ensures
        collapsed(emit_line(e, x)),
{
    let f = emit_line(e, x);
    assert forall|i: int|
        0 <= i < f.lines.len() - 1 && (#[trigger] f.lines[i]).len() == 0 && f.lines[i + 1].len()
            == 0 implies f.body[i] || f.body[i + 1] by {
        if i < e.lines.len() - 1 {
            assert(f.lines[i] == e.lines[i] && f.lines[i + 1] == e.lines[i + 1]);
            assert(f.body[i] == e.body[i] && f.body[i + 1] == e.body[i + 1]);
        } else if i == e.lines.len() - 1 {
            assert(f.lines[i] == e.lines.last());
            assert(f.body[i] == e.body.last());
        }
    }
}

proof fn lemma_emit_verbatim_collapsed(e: Emit, x: Seq<char>)
    requires
        collapsed(e),
        e.lines.len() > 0,
    ensures
        collapsed(emit_verbatim(e, x)),
{
    let f = emit_verbatim(e, x);
    assert forall|i: int|
        0 <= i < f.lines.len() - 1 && (#[trigger] f.lines[i]).len() == 0 && f.lines[i + 1].len()
            == 0 implies f.body[i] || f.body[i + 1] by {
        if i < e.lines.len() - 1 {
            assert(f.lines[i] == e.lines[i] && f.lines[i + 1] == e.lines[i + 1]);
            assert(f.body[i] == e.body[i] && f.body[i + 1] == e.body[i + 1]);
        } else if i == e.lines.len() - 1 {
            assert(f.lines[i] == e.lines.last());
            assert(f.body[i] == e.body.last());
        }
    }
}

proof fn lemma_emit_all_collapsed(e: Emit, ls: Seq<Seq<char>>)
    requires
        collapsed(e),
        forall|k: int| 0 <= k < ls.len() ==> (#[trigger] ls[k]).len() > 0,
    ensures
        collapsed(emit_all(e, ls)),
        emit_all(e, ls).lines.len() >= e.lines.len(),
    decreases ls.len(),
{
    if ls.len() > 0 {
        assert forall|k: int| 0 <= k < ls.drop_last().len() implies (#[trigger] ls.drop_last()[k]).len()
            > 0 by {
            assert(ls.drop_last()[k] == ls[k]);
        }
        lemma_emit_all_collapsed(e, ls.drop_last());
        assert(ls.last() == ls[ls.len() - 1]);
        lemma_emit_line_collapsed(emit_all(e, ls.drop_last()), ls.last());
    }
}

/// Every word of a text is non-empty.
proof fn lemma_words_from_nonempty(s: Seq<char>, i: int)
    ensures
        forall|k: int| 0 <= k < words_from(s, i).len() ==> (#[trigger] words_from(s, i)[k]).len() > 0,
    decreases s.len() - i,
{
    if 0 <= i < s.len() {
        let a = skip_ws(s, i);
        lemma_skip_ws(s, i);
        if a < s.len() {
            let b = skip_non_ws(s, a + 1);
            lemma_skip_non_ws(s, a + 1);
            lemma_words_from_nonempty(s, b);
            let ws = words_from(s, i);
            assert(ws == seq![s.subrange(a, b)] + words_from(s, b));
            assert forall|k: int| 0 <= k < ws.len() implies (#[trigger] ws[k]).len() > 0 by {
                if k > 0 {
                    assert(ws[k] == words_from(s, b)[k - 1]);
                }
            }
        }
    }
}

/// A text that starts with a non-blank character has at least one word.
proof fn lemma_words_start(s: Seq<char>)
    requires
        s.len() > 0,
        !is_ws(s[0]),
    ensures
        words(s).len() > 0,
{
    assert(skip_ws(s, 0) == 0);
}

proof fn lemma_all_words_nonempty(tags: Seq<Seq<char>>)
    ensures
        forall|k: int| 0 <= k < all_words(tags).len() ==> (#[trigger] all_words(tags)[k]).len() > 0,
    decreases tags.len(),
{
    if tags.len() > 0 {
        lemma_all_words_nonempty(tags.drop_last());
        lemma_words_from_nonempty(tags.last(), 0);
        let p = all_words(tags.drop_last());
        let w = words(tags.last());
        assert forall|k: int| 0 <= k < all_words(tags).len() implies (#[trigger] all_words(
            tags,
        )[k]).len() > 0 by {
            if k < p.len() {
                assert(all_words(tags)[k] == p[k]);
            } else {
                assert(all_words(tags)[k] == w[k - p.len()]);
            }
        }
    }
}

/// Pending tag lines are trimmed non-blank lines.
pub open spec fn tags_ok(tags: Seq<Seq<char>>) -> bool {
    forall|k: int| 0 <= k < tags.len() ==> (#[trigger] tags[k]).len() > 0 && !is_ws(tags[k][0])
}

proof fn lemma_all_words_some(tags: Seq<Seq<char>>)
    requires
        tags_ok(tags),
        tags.len() > 0,
    ensures
        all_words(tags).len() > 0,
{
    assert(tags.last() == tags[tags.len() - 1]);
    lemma_words_start(tags.last());
}

proof fn lemma_join_nonempty(ws: Seq<Seq<char>>, sep: Seq<char>)
    requires
        ws.len() > 0,
        ws[0].len() > 0,
        sep.len() > 0,
    ensures
        join(ws, sep).len() > 0,
{
}

proof fn lemma_flush_collapsed(e: Emit, tags: Seq<Seq<char>>, ind: Seq<char>, per_line: bool)
    requires
        collapsed(e),
        tags_ok(tags),
    ensures
        collapsed(flush(e, tags, ind, per_line)),
        flush(e, tags, ind, per_line).lines.len() >= e.lines.len(),
{
    if tags.len() > 0 {
        lemma_all_words_nonempty(tags);
        lemma_all_words_some(tags);
        let ws = all_words(tags);
        if per_line {
            let ls = prefix_each(ind, ws);
            assert forall|k: int| 0 <= k < ls.len() implies (#[trigger] ls[k]).len() > 0 by {
                assert(ls[k] == ind + ws[k]);
                assert(ws[k].len() > 0);
            }
            lemma_emit_all_collapsed(e, ls);
        } else {
            assert(ws[0].len() > 0);
            lemma_join_nonempty(ws, seq![' ']);
            lemma_emit_line_collapsed(e, ind + join(ws, seq![' ']));
        }
    }
}

proof fn lemma_table_rows_nonempty(rows: Seq<Seq<char>>, ind: Seq<char>)
    ensures
        forall|k: int|
            0 <= k < table_rows(rows, ind).len() ==> (#[trigger] table_rows(rows, ind)[k]).len() > 0,
{
    let t = table_rows(rows, ind);
    assert forall|k: int| 0 <= k < t.len() implies (#[trigger] t[k]).len() > 0 by {
        assert(t[k][ind.len() as int] == '|');
    }
}

proof fn lemma_trim_nonblank(l: Seq<char>)
    requires
        !is_blank(l),
    ensures
        trim(l).len() > 0,
        !is_ws(trim(l)[0]),
{
    lemma_skip_ws(l, 0);
    let t = trim_start(l);
    lemma_trail_end(t, t.len() as int);
    assert(t[0] == l[skip_ws(l, 0)]);
}

/// The invariant of the layout: output shaped as `collapsed`, well-formed
/// pending tags, a doc-string open only after something was emitted, and a
/// depth of at most 3.
pub open spec fn layout_ok(st: Layout) -> bool {
    &&& collapsed(st.em)
    &&& tags_ok(st.tags)
    &&& st.in_doc ==> st.em.lines.len() > 0
    &&& st.depth <= 3
}

proof fn lemma_layout_ok(ls: Seq<Seq<char>>, i: int, st: Layout, per_line: bool)
    requires
        layout_ok(st),
    ensures
        layout_ok(layout_from(ls, i, st, per_line)),
    decreases ls.len() - i,
{
    if 0 <= i < ls.len() {
        let l = ls[i];
        if st.in_doc {
            if is_docstring_marker(l) {
                let x = indent(st.depth + 1) + trim(l);
                assert(x.len() > 0);
                lemma_emit_line_collapsed(st.em, x);
                lemma_layout_ok(ls, i + 1, Layout { in_doc: false, em: emit_line(st.em, x), ..st }, per_line);
            } else {
                lemma_emit_verbatim_collapsed(st.em, l);
                lemma_layout_ok(
                    ls,
                    i + 1,
                    Layout { em: emit_verbatim(st.em, l), ..st },
                    per_line,
                );
            }
        } else if is_blank(l) {
            lemma_layout_ok(ls, i + 1, Layout { em: emit_blank(st.em), ..st }, per_line);
        } else if is_tag(l) {
            lemma_trim_nonblank(l);
            let tags = st.tags.push(trim(l));
            assert forall|k: int| 0 <= k < tags.len() implies (#[trigger] tags[k]).len() > 0 && !is_ws(
                tags[k][0],
            ) by {
                if k < st.tags.len() {
                    assert(tags[k] == st.tags[k]);
                }
            }
            lemma_layout_ok(ls, i + 1, Layout { tags, ..st }, per_line);
        } else if is_table(l) {
            let j = table_end(ls, i);
            lemma_table_end(ls, i + 1);
            let ind = crate::formatter::table_indent(st, l);
            let e1 = flush(st.em, st.tags, ind, per_line);
            lemma_flush_collapsed(st.em, st.tags, ind, per_line);
            let rows = table_rows(ls.subrange(i, j), ind);
            lemma_table_rows_nonempty(ls.subrange(i, j), ind);
            lemma_emit_all_collapsed(e1, rows);
            lemma_layout_ok(
                ls,
                j,
                Layout { tags: Seq::empty(), em: emit_all(e1, rows), ..st },
                per_line,
            );
        } else if is_docstring_marker(l) {
            let ind = indent(st.depth + 1);
            let e1 = flush(st.em, st.tags, ind, per_line);
            lemma_flush_collapsed(st.em, st.tags, ind, per_line);
            lemma_emit_line_collapsed(e1, ind + trim(l));
            lemma_layout_ok(
                ls,
                i + 1,
                Layout { tags: Seq::empty(), in_doc: true, em: emit_line(e1, ind + trim(l)), ..st },
                per_line,
            );
        } else {
            let ind = indent(crate::formatter::line_depth(st, l));
            let e1 = flush(st.em, st.tags, ind, per_line);
            lemma_flush_collapsed(st.em, st.tags, ind, per_line);
            lemma_trim_nonblank(l);
            lemma_emit_line_collapsed(e1, ind + trim(l));
            let st1 = Layout { tags: Seq::empty(), em: emit_line(e1, ind + trim(l)), ..st };
            lemma_layout_ok(ls, i + 1, crate::formatter::after_header(st1, l), per_line);
        }
    }
}

/// Blank lines are collapsed: the output's first and last lines are not
/// empty (an empty last line is doc-string content), and of two adjacent
/// empty lines at least one is doc-string content. `body` marks the lines
/// that are doc-string content.
pub proof fn law_blank_lines_collapsed(input: Seq<char>, per_line: bool)
    ensures
        ({
            let e = layout(input, per_line);
            &&& e.lines.len() == e.body.len()
            &&& e.lines.len() > 0 ==> e.lines[0].len() > 0
            &&& e.lines.len() > 0 ==> e.lines.last().len() > 0 || e.body.last()
            &&& forall|i: int|
                0 <= i < e.lines.len() - 1 && (#[trigger] e.lines[i]).len() == 0 && e.lines[i
                    + 1].len() == 0 ==> e.body[i] || e.body[i + 1]
        }),
{
    let ls = input_lines(input);
    let st0 = layout_new();
    assert(layout_ok(st0));
    lemma_layout_ok(ls, 0, st0, per_line);
    let st = layout_from(ls, 0, st0, per_line);
    lemma_flush_collapsed(st.em, st.tags, indent(st.depth), per_line);
}

// ---------- doc-strings ----------

/// The doc-string content lines among the first `n` output lines.
pub open spec fn doc_lines_upto(lines: Seq<Seq<char>>, body: Seq<bool>, n: int) -> Seq<Seq<char>>
    decreases n,
{
    if n <= 0 {
        Seq::empty()
    } else {
        let prev = doc_lines_upto(lines, body, n - 1);
        if body[n - 1] {
            prev.push(lines[n - 1])
        } else {
            prev
        }
    }
}

/// The output lines that are doc-string content, in order.
pub open spec fn doc_lines(e: Emit) -> Seq<Seq<char>> {
    doc_lines_upto(e.lines, e.body, e.lines.len() as int)
}

/// The doc-string content lines of the source lines `ls[i..]`, unchanged;
/// `in_doc` says whether a doc-string is open at `i`.
/// Outside a doc-string, a `"""` or ```` ``` ```` line opens one (blank,
/// tag and table lines are never markers); inside, such a line closes it.
pub open spec fn doc_content_from(ls: Seq<Seq<char>>, i: int, in_doc: bool) -> Seq<Seq<char>>
    decreases ls.len() - i,
{
    if i < 0 || i >= ls.len() {
        Seq::empty()
    } else {
        let l = ls[i];
        if in_doc {
            if is_docstring_marker(l) {
                doc_content_from(ls, i + 1, false)
            } else {
                seq![l] + doc_content_from(ls, i + 1, true)
            }
        } else {
            let opens = !is_blank(l) && !is_tag(l) && !is_table(l) && is_docstring_marker(l);
            doc_content_from(ls, i + 1, opens)
        }
    }
}

proof fn lemma_doc_lines_push(lines: Seq<Seq<char>>, body: Seq<bool>, x: Seq<char>, b: bool, n: int)
    requires
        lines.len() == body.len(),
        0 <= n <= lines.len(),
    ensures
        doc_lines_upto(lines.push(x), body.push(b), n) == doc_lines_upto(lines, body, n),
    decreases n,
{
    if n > 0 {
        lemma_doc_lines_push(lines, body, x, b, n - 1);
    }
}

proof fn lemma_doc_lines_add(e: Emit, x: Seq<char>, b: bool)
    requires
        e.lines.len() == e.body.len(),
    ensures
        doc_lines_upto(e.lines.push(x), e.body.push(b), e.lines.len() + 1int) == if b {
            doc_lines(e).push(x)
        } else {
            doc_lines(e)
        },
{
    lemma_doc_lines_push(e.lines, e.body, x, b, e.lines.len() as int);
}

proof fn lemma_doc_emit_line(e: Emit, x: Seq<char>)
    requires
        e.lines.len() == e.body.len(),
    ensures
        doc_lines(emit_line(e, x)) == doc_lines(e),
        emit_line(e, x).lines.len() == emit_line(e, x).body.len(),
{
    if e.pending_blank && !e.at_start {
        lemma_doc_lines_add(e, Seq::empty(), false);
        let e1 = Emit { lines: e.lines.push(Seq::empty()), body: e.body.push(false), ..e };
        lemma_doc_lines_add(e1, x, false);
    } else {
        lemma_doc_lines_add(e, x, false);
    }
}

proof fn lemma_doc_emit_verbatim(e: Emit, x: Seq<char>)
    requires
        e.lines.len() == e.body.len(),
    ensures
        doc_lines(emit_verbatim(e, x)) == doc_lines(e).push(x),
{
    if e.pending_blank && !e.at_start {
        lemma_doc_lines_add(e, Seq::empty(), false);
        let e1 = Emit { lines: e.lines.push(Seq::empty()), body: e.body.push(false), ..e };
        lemma_doc_lines_add(e1, x, true);
    } else {
        lemma_doc_lines_add(e, x, true);
    }
}

proof fn lemma_doc_emit_all(e: Emit, ls: Seq<Seq<char>>)
    requires
        e.lines.len() == e.body.len(),
    ensures
        doc_lines(emit_all(e, ls)) == doc_lines(e),
        emit_all(e, ls).lines.len() == emit_all(e, ls).body.len(),
    decreases ls.len(),
{
    if ls.len() > 0 {
        lemma_doc_emit_all(e, ls.drop_last());
        lemma_doc_emit_line(emit_all(e, ls.drop_last()), ls.last());
    }
}

proof fn lemma_doc_flush(e: Emit, tags: Seq<Seq<char>>, ind: Seq<char>, per_line: bool)
    requires
        e.lines.len() == e.body.len(),
    ensures
        doc_lines(flush(e, tags, ind, per_line)) == doc_lines(e),
        flush(e, tags, ind, per_line).lines.len() == flush(e, tags, ind, per_line).body.len(),
{
    if tags.len() > 0 {
        if per_line {
            lemma_doc_emit_all(e, prefix_each(ind, all_words(tags)));
        } else {
            lemma_doc_emit_line(e, ind + join(all_words(tags), seq![' ']));
        }
    }
}

proof fn lemma_doc_tables(ls: Seq<Seq<char>>, i: int, j: int)
    requires
        0 <= i <= j <= ls.len(),
        forall|k: int| i <= k < j ==> is_table(#[trigger] ls[k]),
    ensures
        doc_content_from(ls, i, false) == doc_content_from(ls, j, false),
    decreases j - i,
{
    if i < j {
        lemma_doc_tables(ls, i + 1, j);
    }
}

proof fn lemma_doc_layout(ls: Seq<Seq<char>>, i: int, st: Layout, per_line: bool)
    requires
        st.em.lines.len() == st.em.body.len(),
        0 <= i,
    ensures
        doc_lines(layout_from(ls, i, st, per_line).em) == doc_lines(st.em) + doc_content_from(
            ls,
            i,
            st.in_doc,
        ),
        layout_from(ls, i, st, per_line).em.lines.len() == layout_from(ls, i, st, per_line).em.body.len(),
    decreases ls.len() - i,
{
    if i >= ls.len() {
        assert(doc_lines(st.em) + Seq::<Seq<char>>::empty() =~= doc_lines(st.em));
    } else {
        let l = ls[i];
        if st.in_doc {
            if is_docstring_marker(l) {
                let x = indent(st.depth + 1) + trim(l);
                lemma_doc_emit_line(st.em, x);
                lemma_doc_layout(ls, i + 1, Layout { in_doc: false, em: emit_line(st.em, x), ..st }, per_line);
            } else {
                lemma_doc_emit_verbatim(st.em, l);
                let st1 = Layout { em: emit_verbatim(st.em, l), ..st };
                lemma_doc_layout(ls, i + 1, st1, per_line);
                assert(doc_lines(st.em).push(l) + doc_content_from(ls, i + 1, true)
                    =~= doc_lines(st.em) + (seq![l] + doc_content_from(ls, i + 1, true)));
            }
        } else if is_blank(l) {
            lemma_doc_layout(ls, i + 1, Layout { em: emit_blank(st.em), ..st }, per_line);
        } else if is_tag(l) {
            lemma_doc_layout(ls, i + 1, Layout { tags: st.tags.push(trim(l)), ..st }, per_line);
        } else if is_table(l) {
            let j = table_end(ls, i);
            lemma_table_end(ls, i);
            let ind = crate::formatter::table_indent(st, l);
            let e1 = flush(st.em, st.tags, ind, per_line);
            lemma_doc_flush(st.em, st.tags, ind, per_line);
            let rows = table_rows(ls.subrange(i, j), ind);
            lemma_doc_emit_all(e1, rows);
            lemma_doc_tables(ls, i, j);
            lemma_doc_layout(ls, j, Layout { tags: Seq::empty(), em: emit_all(e1, rows), ..st }, per_line);
        } else if is_docstring_marker(l) {
            let ind = indent(st.depth + 1);
            let e1 = flush(st.em, st.tags, ind, per_line);
            lemma_doc_flush(st.em, st.tags, ind, per_line);
            lemma_doc_emit_line(e1, ind + trim(l));
            lemma_doc_layout(
                ls,
                i + 1,
                Layout { tags: Seq::empty(), in_doc: true, em: emit_line(e1, ind + trim(l)), ..st },
                per_line,
            );
        } else {
            let ind = indent(crate::formatter::line_depth(st, l));
            let e1 = flush(st.em, st.tags, ind, per_line);
            lemma_doc_flush(st.em, st.tags, ind, per_line);
            lemma_doc_emit_line(e1, ind + trim(l));
            let st1 = Layout { tags: Seq::empty(), em: emit_line(e1, ind + trim(l)), ..st };
            lemma_doc_layout(ls, i + 1, crate::formatter::after_header(st1, l), per_line);
        }
    }
}

/// Doc-string contents are left verbatim: the output lines that are
/// doc-string content are exactly the source's doc-string content lines,
/// unchanged and in order.
pub proof fn law_doc_strings_verbatim(input: Seq<char>, per_line: bool)
    ensures
        doc_lines(layout(input, per_line)) == doc_content_from(input_lines(input), 0, false),
{
    let ls = input_lines(input);
    let st0 = layout_new();
    assert(doc_lines(st0.em) =~= Seq::<Seq<char>>::empty());
    lemma_doc_layout(ls, 0, st0, per_line);
    let st = layout_from(ls, 0, st0, per_line);
    lemma_doc_flush(st.em, st.tags, indent(st.depth), per_line);
    assert(Seq::<Seq<char>>::empty() + doc_content_from(ls, 0, false) =~= doc_content_from(ls, 0, false));
}

// ---------- indentation ----------

/// The canonical indentation: `Feature:` at column 0 with its children at 2;
/// `Rule:` at 2 with its children at 4; `Scenario:`/`Background:` at 2 (4
/// under a `Rule:`) with their steps at 4 (6 under a `Rule:`); any other line
/// at the current child depth; tables and doc-string markers one level
/// deeper than that.
pub proof fn law_canonical_indentation(st: Layout, l: Seq<char>)
    ensures
        is_feature(l) ==> indent(line_depth(st, l)) == spaces(0) && indent(
            after_header(st, l).depth,
        ) == spaces(2),
        !is_feature(l) && is_rule(l) ==> indent(line_depth(st, l)) == spaces(2) && indent(
            after_header(st, l).depth,
        ) == spaces(4),
        !is_feature(l) && !is_rule(l) && (is_background(l) || is_scenario(l)) ==> {
            &&& indent(line_depth(st, l)) == spaces(if st.has_rule { 4 } else { 2 })
            &&& indent(after_header(st, l).depth) == spaces(if st.has_rule { 6 } else { 4 })
        },
        !is_feature(l) && !is_rule(l) && !is_background(l) && !is_scenario(l) ==> {
            &&& indent(line_depth(st, l)) == spaces(2 * st.depth)
            &&& after_header(st, l) == st
        },
        indent(st.depth + 1) == spaces(2 * st.depth + 2),
{
}

// ---------- tables ----------

/// The column of the pipe that closes cell `k` of a row (the opening pipe
/// for `k == 0`).
pub open spec fn pipe_column(ind_len: nat, ws: Seq<nat>, k: int) -> int
    decreases k,
{
    if k <= 0 {
        ind_len as int
    } else {
        pipe_column(ind_len, ws, k - 1) + ws[k - 1] + 3
    }
}

proof fn lemma_segs(cells: Seq<Seq<char>>, ws: Seq<nat>, nums: Seq<bool>, k: int, m: int)
    requires
        0 <= k <= m <= cells.len(),
        m <= ws.len(),
        forall|j: int| 0 <= j < m ==> (#[trigger] cells[j]).len() <= ws[j],
    ensures
        segs(cells, ws, nums, k).len() == pipe_column(0, ws, k),
        segs(cells, ws, nums, m).take(segs(cells, ws, nums, k).len() as int) == segs(cells, ws, nums, k),
        k > 0 ==> segs(cells, ws, nums, m)[segs(cells, ws, nums, k).len() - 1] == '|',
    decreases m,
{
    if m > 0 {
        if k == m {
            lemma_segs(cells, ws, nums, k - 1, k - 1);
            let prev = segs(cells, ws, nums, k - 1);
            let seg = cell_seg(cells[k - 1], ws[k - 1], nums[k - 1]);
            assert(cells[k - 1].len() <= ws[k - 1]);
            assert(seg.len() == ws[k - 1] + 3);
            assert(seg[seg.len() - 1] == '|');
            let all = segs(cells, ws, nums, m);
            assert(all == prev + seg);
            assert(all[all.len() - 1] == seg[seg.len() - 1]);
            assert(all.take(all.len() as int) == all);
        } else {
            lemma_segs(cells, ws, nums, k, m - 1);
            lemma_segs(cells, ws, nums, m - 1, m - 1);
            let sk = segs(cells, ws, nums, k);
            let prev = segs(cells, ws, nums, m - 1);
            let all = segs(cells, ws, nums, m);
            assert(all == prev + cell_seg(cells[m - 1], ws[m - 1], nums[m - 1]));
            assert(sk.len() <= prev.len()) by {
                lemma_pipe_column_mono(ws, k, m - 1);
            }
            assert(all.take(sk.len() as int) =~= prev.take(sk.len() as int));
            if k > 0 {
                assert(all[sk.len() - 1] == prev[sk.len() - 1]);
                assert(prev.take(sk.len() as int)[sk.len() - 1] == prev[sk.len() - 1]);
            }
        }
    } else {
        assert(segs(cells, ws, nums, 0).take(0) =~= segs(cells, ws, nums, 0));
    }
}

proof fn lemma_pipe_column_mono(ws: Seq<nat>, k: int, m: int)
    requires
        0 <= k <= m,
    ensures
        pipe_column(0, ws, k) <= pipe_column(0, ws, m),
    decreases m - k,
{
    if k < m {
        lemma_pipe_column_mono(ws, k, m - 1);
    }
}

proof fn lemma_pipe_column_shift(n: nat, ws: Seq<nat>, k: int)
    ensures
        pipe_column(n, ws, k) == n + pipe_column(0, ws, k),
    decreases k,
{
    if k > 0 {
        lemma_pipe_column_shift(n, ws, k - 1);
    }
}

/// Pipes line up: in every row of an aligned table region, the pipe that
/// closes cell `k` sits at the same column, `pipe_column`, which depends only
/// on the indent and the column widths.
pub proof fn law_table_pipes_line_up(rows: Seq<Seq<char>>, ind: Seq<char>, r: int, k: int)
    requires
        0 <= r < rows.len(),
        0 <= k <= row_cells(rows[r]).len(),
    ensures
        ({
            let out = table_rows(rows, ind);
            let c = pipe_column(ind.len(), widths(parse_rows(rows)), k);
            &&& 0 <= c < out[r].len()
            &&& out[r][c] == '|'
        }),
{
    let p = parse_rows(rows);
    let cells = p[r];
    let ws = widths(p);
    let nums = numerics(p);
    let n = cells.len() as int;
    lemma_max_cols(p);
    assert(cells == row_cells(rows[r]));
    assert forall|j: int| 0 <= j < n implies (#[trigger] cells[j]).len() <= ws[j] by {
        lemma_col_width(p, j);
        assert(p[r] == cells);
    }
    lemma_segs(cells, ws, nums, k, n);
    lemma_segs(cells, ws, nums, n, n);
    lemma_pipe_column_mono(ws, k, n);
    if k > 0 {
        lemma_pipe_column_mono(ws, 0, k - 1);
    }
    lemma_pipe_column_shift(ind.len(), ws, k);
    let out = table_rows(rows, ind);
    assert(out[r] == render_row(ind, cells, ws, nums));
    let row = ind + seq!['|'] + segs(cells, ws, nums, n);
    assert(out[r] == row);
    let sk = segs(cells, ws, nums, k);
    if k == 0 {
        assert(row[ind.len() as int] == '|');
    } else {
        let all = segs(cells, ws, nums, n);
        assert(row[ind.len() + 1 + sk.len() - 1] == all[sk.len() - 1]);
    }
}

/// Cell `k` of a rendered row sits between the pipes at `pipe_column`s `k`
/// and `k + 1`.
proof fn lemma_row_cell(ind: Seq<char>, cells: Seq<Seq<char>>, ws: Seq<nat>, nums: Seq<bool>, k: int)
    requires
        0 <= k < cells.len() <= ws.len(),
        forall|j: int| 0 <= j < cells.len() ==> (#[trigger] cells[j]).len() <= ws[j],
    ensures
        ({
            let row = render_row(ind, cells, ws, nums);
            let open = pipe_column(ind.len(), ws, k);
            let close = pipe_column(ind.len(), ws, k + 1);
            &&& 0 <= open < close < row.len()
            &&& row.subrange(open + 1, close + 1) == cell_seg(cells[k], ws[k], nums[k])
        }),
{
    let n = cells.len() as int;
    lemma_segs(cells, ws, nums, k, n);
    lemma_segs(cells, ws, nums, k + 1, n);
    lemma_segs(cells, ws, nums, n, n);
    lemma_pipe_column_mono(ws, k + 1, n);
    lemma_pipe_column_shift(ind.len(), ws, k);
    lemma_pipe_column_shift(ind.len(), ws, k + 1);
    let all = segs(cells, ws, nums, n);
    let sk = segs(cells, ws, nums, k);
    let sk1 = segs(cells, ws, nums, k + 1);
    let seg = cell_seg(cells[k], ws[k], nums[k]);
    let row = render_row(ind, cells, ws, nums);
    assert(row == ind + seq!['|'] + all);
    assert(sk1 == sk + seg);
    assert(all.subrange(sk.len() as int, sk1.len() as int) =~= seg) by {
        assert(all.take(sk1.len() as int) == sk1);
        assert forall|i: int| 0 <= i < seg.len() implies all[sk.len() + i] == seg[i] by {
            assert(all.take(sk1.len() as int)[sk.len() + i] == sk1[sk.len() + i]);
        }
    }
    let open = (ind.len() + sk.len()) as int;
    let close = (ind.len() + sk1.len()) as int;
    assert(row.subrange(open + 1, close + 1) =~= all.subrange(sk.len() as int, sk1.len() as int));
}

/// Numeric columns are right-aligned and text columns left-aligned: between
/// the pipe that opens cell `k` of a row and the pipe that closes it, the
/// cell's padding comes before its text when every non-empty body cell of
/// column `k` is a number, and after it otherwise; one space of margin stays
/// on either side.
pub proof fn law_cells_aligned(rows: Seq<Seq<char>>, ind: Seq<char>, r: int, k: int)
    requires
        0 <= r < rows.len(),
        0 <= k < row_cells(rows[r]).len(),
    ensures
        ({
            let p = parse_rows(rows);
            let out = table_rows(rows, ind);
            let cell = p[r][k];
            let w = widths(p)[k];
            let open = pipe_column(ind.len(), widths(p), k);
            let close = pipe_column(ind.len(), widths(p), k + 1);
            let pad = spaces((w - cell.len() + 1) as nat);
            &&& cell.len() <= w
            &&& 0 <= open < close < out[r].len()
            &&& out[r].subrange(open + 1, close + 1) == if col_numeric(p, k) {
                pad + cell + seq![' ', '|']
            } else {
                seq![' '] + cell + pad + seq!['|']
            }
        }),
{
    let p = parse_rows(rows);
    let cells = p[r];
    let ws = widths(p);
    let nums = numerics(p);
    lemma_max_cols(p);
    assert(cells == row_cells(rows[r]));
    assert forall|j: int| 0 <= j < cells.len() implies (#[trigger] cells[j]).len() <= ws[j] by {
        lemma_col_width(p, j);
        assert(p[r] == cells);
    }
    lemma_row_cell(ind, cells, ws, nums, k);
    assert(table_rows(rows, ind)[r] == render_row(ind, cells, ws, nums));
    assert(nums[k] == col_numeric(p, k));
    let cell = cells[k];
    let pad = spaces((ws[k] - cell.len() + 1) as nat);
    let seg = cell_seg(cell, ws[k], nums[k]);
    if nums[k] {
        assert(seg =~= pad + cell + seq![' ', '|']);
    } else {
        assert(seg =~= seq![' '] + cell + pad + seq!['|']);
    }
}

// ---------- one tag per line ----------

/// The output lines with every tag line (outside doc-string content) split
/// into one line per tag, each at the tag line's indent.
pub open spec fn split_tag_lines(lines: Seq<Seq<char>>, body: Seq<bool>) -> Seq<Seq<char>>
    decreases lines.len(),
{
    if lines.len() == 0 {
        Seq::empty()
    } else {
        let prev = split_tag_lines(lines.drop_last(), body);
        let l = lines.last();
        if !body[lines.len() - 1] && is_tag(l) {
            prev + prefix_each(leading_indent(l), words(l))
        } else {
            prev.push(l)
        }
    }
}

proof fn lemma_split_tag_lines_body(lines: Seq<Seq<char>>, body: Seq<bool>, b: bool)
    requires
        lines.len() <= body.len(),
    ensures
        split_tag_lines(lines, body.push(b)) == split_tag_lines(lines, body),
    decreases lines.len(),
{
    if lines.len() > 0 {
        lemma_split_tag_lines_body(lines.drop_last(), body, b);
        assert(body.push(b)[lines.len() - 1] == body[lines.len() - 1]);
    }
}

/// What the two modes have emitted so far correspond: the one-per-line
/// output is the joined output with its tag lines split.
pub open spec fn tags_split(et: Emit, ef: Emit) -> bool {
    &&& et.lines == split_tag_lines(ef.lines, ef.body)
    &&& ef.body.len() == ef.lines.len()
    &&& et.pending_blank == ef.pending_blank
    &&& et.at_start == ef.at_start
}

/// Appends one non-tag line to both sides.
proof fn lemma_push_plain(lines: Seq<Seq<char>>, body: Seq<bool>, x: Seq<char>, b: bool)
    requires
        body.len() == lines.len(),
        b || !is_tag(x),
    ensures
        split_tag_lines(lines.push(x), body.push(b)) == split_tag_lines(lines, body).push(x),
{
    lemma_split_tag_lines_body(lines, body, b);
    assert(lines.push(x).drop_last() == lines);
}

proof fn lemma_blank_not_tag()
    ensures
        !is_tag(Seq::<char>::empty()),
{
    assert(trim_start(Seq::<char>::empty()) =~= Seq::<char>::empty());
    reveal_strlit("@");
}

proof fn lemma_emit_line_split(et: Emit, ef: Emit, x: Seq<char>)
    requires
        tags_split(et, ef),
        !is_tag(x),
    ensures
        tags_split(emit_line(et, x), emit_line(ef, x)),
{
    if ef.pending_blank && !ef.at_start {
        lemma_blank_not_tag();
        lemma_push_plain(ef.lines, ef.body, Seq::empty(), false);
        lemma_push_plain(ef.lines.push(Seq::empty()), ef.body.push(false), x, false);
    } else {
        lemma_push_plain(ef.lines, ef.body, x, false);
    }
}

proof fn lemma_emit_verbatim_split(et: Emit, ef: Emit, x: Seq<char>)
    requires
        tags_split(et, ef),
    ensures
        tags_split(emit_verbatim(et, x), emit_verbatim(ef, x)),
{
    if ef.pending_blank && !ef.at_start {
        lemma_blank_not_tag();
        lemma_push_plain(ef.lines, ef.body, Seq::empty(), false);
        lemma_push_plain(ef.lines.push(Seq::empty()), ef.body.push(false), x, true);
    } else {
        lemma_push_plain(ef.lines, ef.body, x, true);
    }
}

proof fn lemma_emit_all_split(et: Emit, ef: Emit, rows: Seq<Seq<char>>)
    requires
        tags_split(et, ef),
        forall|k: int| 0 <= k < rows.len() ==> !is_tag(#[trigger] rows[k]),
    ensures
        tags_split(emit_all(et, rows), emit_all(ef, rows)),
    decreases rows.len(),
{
    if rows.len() > 0 {
        lemma_emit_all_split(et, ef, rows.drop_last());
        assert(rows.last() == rows[rows.len() - 1]);
        lemma_emit_line_split(emit_all(et, rows.drop_last()), emit_all(ef, rows.drop_last()), rows.last());
    }
}

/// `emit_all` of some lines appends them, after one blank line if one is owed.
proof fn lemma_emit_all_lines(e: Emit, rows: Seq<Seq<char>>)
    requires
        rows.len() > 0,
    ensures
        emit_all(e, rows).lines == (if e.pending_blank && !e.at_start {
            e.lines.push(Seq::empty())
        } else {
            e.lines
        }) + rows,
        !emit_all(e, rows).pending_blank,
        !emit_all(e, rows).at_start,
    decreases rows.len(),
{
    let pre = if e.pending_blank && !e.at_start {
        e.lines.push(Seq::empty())
    } else {
        e.lines
    };
    if rows.len() == 1 {
        assert(rows.drop_last() =~= Seq::<Seq<char>>::empty());
        assert(emit_all(e, rows.drop_last()) == e);
        assert(emit_all(e, rows) == emit_line(e, rows.last()));
        assert(pre.push(rows.last()) =~= pre + rows);
    } else {
        lemma_emit_all_lines(e, rows.drop_last());
        let e1 = emit_all(e, rows.drop_last());
        assert(emit_all(e, rows) == emit_line(e1, rows.last()));
        assert(emit_line(e1, rows.last()).lines == e1.lines.push(rows.last()));
        assert((pre + rows.drop_last()).push(rows.last()) =~= pre + rows);
    }
}

/// A line that starts (after whitespace) with a non-blank character `c`.
proof fn lemma_starts_after_ws(ind: Seq<char>, x: Seq<char>)
    requires
        forall|k: int| 0 <= k < ind.len() ==> is_ws(#[trigger] ind[k]),
        x.len() > 0,
        !is_ws(x[0]),
    ensures
        skip_ws(ind + x, 0) == ind.len(),
        trim_start(ind + x) == x,
        leading_indent(ind + x) == ind,
{
    let s = ind + x;
    assert forall|k: int| 0 <= k < ind.len() implies is_ws(#[trigger] s[k]) by {
        assert(s[k] == ind[k]);
    }
    assert(s[ind.len() as int] == x[0]);
    lemma_skip_ws_exact(s, 0, ind.len() as int);
    assert(trim_start(s) =~= x);
    assert(leading_indent(s) =~= ind);
}

proof fn lemma_no_tag_after_ws(ind: Seq<char>, x: Seq<char>)
    requires
        forall|k: int| 0 <= k < ind.len() ==> is_ws(#[trigger] ind[k]),
        x.len() > 0,
        !is_ws(x[0]),
        x[0] != '@',
    ensures
        !is_tag(ind + x),
{
    lemma_starts_after_ws(ind, x);
    reveal_strlit("@");
    if is_tag(ind + x) {
        assert(x.take(1)[0] == "@"@[0]);
    }
}

/// A non-blank line that is not a tag line, re-indented, is no tag line.
proof fn lemma_reindented_not_tag(ind: Seq<char>, l: Seq<char>)
    requires
        forall|k: int| 0 <= k < ind.len() ==> is_ws(#[trigger] ind[k]),
        !is_blank(l),
        !is_tag(l),
    ensures
        !is_tag(ind + trim(l)),
{
    lemma_trim_nonblank(l);
    lemma_skip_ws(l, 0);
    let t = trim_start(l);
    lemma_trail_end(t, t.len() as int);
    assert(trim(l) == t.take(trail_end(t, t.len() as int)));
    assert(trim(l)[0] == t[0]);
    reveal_strlit("@");
    if trim(l)[0] == '@' {
        assert(t.take(1) =~= "@"@);
    }
    lemma_no_tag_after_ws(ind, trim(l));
}

proof fn lemma_marker_nonblank(l: Seq<char>)
    requires
        is_docstring_marker(l),
    ensures
        !is_blank(l),
        !is_tag(l),
{
    reveal_strlit("\"\"\"");
    reveal_strlit("```");
    reveal_strlit("@");
    let t = trim_start(l);
    lemma_skip_ws(l, 0);
    assert(t.len() > 0);
    assert(t[0] == '"' || t[0] == '`') by {
        if has_prefix(t, "\"\"\""@) {
            assert(t.take(3)[0] == t[0]);
        } else {
            assert(t.take(3)[0] == t[0]);
        }
    }
    lemma_trail_end(t, t.len() as int);
    lemma_trail_end_exact(t, t.len() as int, trail_end(t, t.len() as int));
    if trail_end(t, t.len() as int) == 0 {
        assert(is_ws(t[0]));
    }
    if is_tag(l) {
        assert(t.take(1)[0] == t[0]);
    }
}

proof fn lemma_rows_not_tags(rows: Seq<Seq<char>>, ind: Seq<char>)
    requires
        forall|k: int| 0 <= k < ind.len() ==> is_ws(#[trigger] ind[k]),
    ensures
        forall|k: int| 0 <= k < table_rows(rows, ind).len() ==> !is_tag(#[trigger] table_rows(rows, ind)[k]),
{
    let t = table_rows(rows, ind);
    assert forall|k: int| 0 <= k < t.len() implies !is_tag(#[trigger] t[k]) by {
        let p = parse_rows(rows);
        let x = seq!['|'] + segs(p[k], widths(p), numerics(p), p[k].len() as int);
        assert(t[k] == ind + x);
        assert(x[0] == '|');
        lemma_no_tag_after_ws(ind, x);
    }
}

// words of a joined tag line

proof fn lemma_skip_non_ws_exact(s: Seq<char>, i: int, j: int)
    requires
        0 <= i <= j <= s.len(),
        forall|k: int| i <= k < j ==> !is_ws(#[trigger] s[k]),
        j < s.len() ==> is_ws(s[j]),
    ensures
        skip_non_ws(s, i) == j,
    decreases j - i,
{
    if i < j {
        assert(!is_ws(s[i]));
        lemma_skip_non_ws_exact(s, i + 1, j);
    }
}

/// A word without whitespace.
pub open spec fn solid(w: Seq<char>) -> bool {
    w.len() > 0 && forall|k: int| 0 <= k < w.len() ==> !is_ws(#[trigger] w[k])
}

/// Appending a space and a word adds that word.
proof fn lemma_words_cat(a: Seq<char>, w: Seq<char>, i: int)
    requires
        0 <= i <= a.len(),
        a.len() > 0 ==> !is_ws(a.last()),
        solid(w),
    ensures
        words_from(a + seq![' '] + w, i) == words_from(a, i).push(w),
    decreases a.len() - i,
{
    let s = a + seq![' '] + w;
    let n = a.len() as int;
    assert(s[n] == ' ');
    assert forall|k: int| n + 1 <= k < s.len() implies !is_ws(#[trigger] s[k]) by {
        assert(s[k] == w[k - n - 1]);
    }
    if i == n {
        lemma_skip_ws_exact(s, n, n + 1);
        lemma_skip_non_ws_exact(s, n + 2, s.len() as int);
        assert(s.subrange(n + 1, s.len() as int) =~= w);
        assert(words_from(a, i) =~= Seq::<Seq<char>>::empty());
        assert(words_from(s, i) == seq![w] + words_from(s, s.len() as int));
        assert(seq![w] + Seq::<Seq<char>>::empty() =~= Seq::<Seq<char>>::empty().push(w));
    } else {
        lemma_skip_ws(a, i);
        let x = skip_ws(a, i);
        if x >= n {
            assert(is_ws(a[n - 1]));
        }
        assert forall|k: int| i <= k < x implies is_ws(#[trigger] s[k]) by {
            assert(s[k] == a[k]);
        }
        assert(s[x] == a[x]);
        lemma_skip_ws_exact(s, i, x);
        lemma_skip_non_ws(a, x + 1);
        let y = skip_non_ws(a, x + 1);
        assert forall|k: int| x + 1 <= k < y implies !is_ws(#[trigger] s[k]) by {
            assert(s[k] == a[k]);
        }
        if y < n {
            assert(s[y] == a[y]);
        }
        lemma_skip_non_ws_exact(s, x + 1, y);
        assert(s.subrange(x, y) =~= a.subrange(x, y));
        lemma_words_cat(a, w, y);
        assert(words_from(s, i) == seq![s.subrange(x, y)] + words_from(s, y));
        assert(words_from(a, i) == seq![a.subrange(x, y)] + words_from(a, y));
        assert(seq![a.subrange(x, y)] + words_from(a, y).push(w) =~= (seq![a.subrange(x, y)]
            + words_from(a, y)).push(w));
    }
}

/// The words of an indent followed by solid words joined by single spaces
/// are those words.
proof fn lemma_words_joined(ind: Seq<char>, ws: Seq<Seq<char>>)
    requires
        forall|k: int| 0 <= k < ind.len() ==> is_ws(#[trigger] ind[k]),
        ws.len() > 0,
        forall|k: int| 0 <= k < ws.len() ==> solid(#[trigger] ws[k]),
    ensures
        words(ind + join(ws, seq![' '])) == ws,
        (ind + join(ws, seq![' '])).len() > ind.len(),
        (ind + join(ws, seq![' ']))[ind.len() as int] == ws[0][0],
        (ind + join(ws, seq![' '])).last() == ws.last().last(),
    decreases ws.len(),
{
    let s = ind + join(ws, seq![' ']);
    if ws.len() == 1 {
        let w = ws[0];
        assert(solid(w));
        assert(s =~= ind + w);
        assert forall|k: int| 0 <= k < ind.len() implies is_ws(#[trigger] s[k]) by {
            assert(s[k] == ind[k]);
        }
        assert forall|k: int| ind.len() <= k < s.len() implies !is_ws(#[trigger] s[k]) by {
            assert(s[k] == w[k - ind.len()]);
        }
        lemma_skip_ws_exact(s, 0, ind.len() as int);
        lemma_skip_non_ws_exact(s, (ind.len() + 1) as int, s.len() as int);
        assert(s.subrange(ind.len() as int, s.len() as int) =~= w);
        assert(words(s) == seq![w] + words_from(s, s.len() as int));
        assert(words(s) =~= ws);
    } else {
        let p = ws.drop_last();
        assert forall|k: int| 0 <= k < p.len() implies solid(#[trigger] p[k]) by {
            assert(p[k] == ws[k]);
        }
        lemma_words_joined(ind, p);
        let a = ind + join(p, seq![' ']);
        let w = ws.last();
        assert(solid(ws[ws.len() - 1]));
        assert(p.last() == ws[ws.len() - 2]);
        assert(solid(p[p.len() - 1]));
        assert(s =~= a + seq![' '] + w);
        lemma_words_cat(a, w, 0);
        assert(ws =~= p.push(w));
        assert(s[ind.len() as int] == a[ind.len() as int]);
        assert(p[0] == ws[0]);
    }
}

proof fn lemma_words_solid(s: Seq<char>, i: int)
    ensures
        forall|k: int| 0 <= k < words_from(s, i).len() ==> solid(#[trigger] words_from(s, i)[k]),
    decreases s.len() - i,
{
    if 0 <= i < s.len() {
        let a = skip_ws(s, i);
        lemma_skip_ws(s, i);
        if a < s.len() {
            let b = skip_non_ws(s, a + 1);
            lemma_skip_non_ws(s, a + 1);
            lemma_words_solid(s, b);
            let ws = words_from(s, i);
            assert(ws == seq![s.subrange(a, b)] + words_from(s, b));
            assert forall|k: int| 0 <= k < ws.len() implies solid(#[trigger] ws[k]) by {
                if k > 0 {
                    assert(ws[k] == words_from(s, b)[k - 1]);
                } else {
                    assert forall|m: int| 0 <= m < ws[0].len() implies !is_ws(#[trigger] ws[0][m]) by {
                        assert(ws[0][m] == s[a + m]);
                    }
                }
            }
        }
    }
}

/// Pending tags: trimmed tag lines, each starting with `@`.
pub open spec fn tags_at(tags: Seq<Seq<char>>) -> bool {
    forall|k: int| 0 <= k < tags.len() ==> (#[trigger] tags[k]).len() > 0 && tags[k][0] == '@'
}

proof fn lemma_all_words_solid(tags: Seq<Seq<char>>)
    requires
        tags_at(tags),
    ensures
        forall|k: int| 0 <= k < all_words(tags).len() ==> solid(#[trigger] all_words(tags)[k]),
        tags.len() > 0 ==> all_words(tags).len() > 0 && all_words(tags)[0][0] == '@',
    decreases tags.len(),
{
    if tags.len() > 0 {
        let p = tags.drop_last();
        assert forall|k: int| 0 <= k < p.len() implies (#[trigger] p[k]).len() > 0 && p[k][0] == '@' by {
            assert(p[k] == tags[k]);
        }
        lemma_all_words_solid(p);
        let l = tags.last();
        assert(l == tags[tags.len() - 1]);
        lemma_words_solid(l, 0);
        let pw = all_words(p);
        let w = words(l);
        assert forall|k: int| 0 <= k < all_words(tags).len() implies solid(#[trigger] all_words(tags)[k]) by {
            if k < pw.len() {
                assert(all_words(tags)[k] == pw[k]);
            } else {
                assert(all_words(tags)[k] == w[k - pw.len()]);
            }
        }
        if p.len() == 0 {
            assert(pw =~= Seq::<Seq<char>>::empty());
            assert(skip_ws(l, 0) == 0);
            lemma_skip_non_ws(l, 1);
            assert(w[0] == l.subrange(0, skip_non_ws(l, 1)));
            assert(all_words(tags)[0] == w[0]);
        } else {
            assert(all_words(tags)[0] == pw[0]);
        }
    }
}

proof fn lemma_flush_split(et: Emit, ef: Emit, tags: Seq<Seq<char>>, ind: Seq<char>)
    requires
        tags_split(et, ef),
        tags_at(tags),
        forall|k: int| 0 <= k < ind.len() ==> is_ws(#[trigger] ind[k]),
    ensures
        tags_split(flush(et, tags, ind, true), flush(ef, tags, ind, false)),
{
    if tags.len() > 0 {
        let ws = all_words(tags);
        lemma_all_words_solid(tags);
        lemma_words_joined(ind, ws);
        let x = ind + join(ws, seq![' ']);
        let j = join(ws, seq![' ']);
        assert(j.len() > 0);
        assert(x =~= ind + j);
        assert(j[0] == ws[0][0]);
        lemma_starts_after_ws(ind, j);
        reveal_strlit("@");
        assert(trim_start(x).take(1) =~= "@"@);
        assert(is_tag(x));
        let ef1 = emit_line(ef, x);
        let pre = if ef.pending_blank && !ef.at_start {
            ef.lines.push(Seq::empty())
        } else {
            ef.lines
        };
        let pre_b = if ef.pending_blank && !ef.at_start {
            ef.body.push(false)
        } else {
            ef.body
        };
        if ef.pending_blank && !ef.at_start {
            lemma_blank_not_tag();
            lemma_push_plain(ef.lines, ef.body, Seq::empty(), false);
        }
        assert(ef1.lines == pre.push(x));
        assert(ef1.body == pre_b.push(false));
        lemma_split_tag_lines_body(pre, pre_b, false);
        assert(pre.push(x).drop_last() == pre);
        assert(split_tag_lines(ef1.lines, ef1.body) == split_tag_lines(pre, pre_b) + prefix_each(ind, ws));
        lemma_emit_all_lines(et, prefix_each(ind, ws));
    }
}

/// The layouts of both modes advance in step: same state, and emitted
/// output related by `tags_split`.
proof fn lemma_layout_split(ls: Seq<Seq<char>>, i: int, st: Layout, et: Emit)
    requires
        tags_split(et, st.em),
        tags_at(st.tags),
    ensures
        ({
            let a = layout_from(ls, i, Layout { em: et, ..st }, true);
            let b = layout_from(ls, i, st, false);
            &&& tags_split(a.em, b.em)
            &&& a == Layout { em: a.em, ..b }
            &&& tags_at(b.tags)
        }),
    decreases ls.len() - i, 2int,
{
    let sa = Layout { em: et, ..st };
    if 0 <= i < ls.len() {
        let l = ls[i];
        if st.in_doc {
            if is_docstring_marker(l) {
                let x = indent(st.depth + 1) + trim(l);
                lemma_marker_nonblank(l);
                lemma_reindented_not_tag(indent(st.depth + 1), l);
                lemma_emit_line_split(et, st.em, x);
                lemma_layout_split(ls, i + 1, Layout { in_doc: false, em: emit_line(st.em, x), ..st }, emit_line(et, x));
                assert(Layout { in_doc: false, em: emit_line(et, x), ..sa } == Layout { em: emit_line(et, x), ..Layout { in_doc: false, em: emit_line(st.em, x), ..st } });
            } else {
                lemma_emit_verbatim_split(et, st.em, l);
                lemma_layout_split(ls, i + 1, Layout { em: emit_verbatim(st.em, l), ..st }, emit_verbatim(et, l));
            }
        } else if is_blank(l) {
            lemma_layout_split(ls, i + 1, Layout { em: emit_blank(st.em), ..st }, emit_blank(et));
        } else if is_tag(l) {
            lemma_tag_trim(l);
            let tags = st.tags.push(trim(l));
            assert forall|k: int| 0 <= k < tags.len() implies (#[trigger] tags[k]).len() > 0 && tags[k][0] == '@' by {
                if k < st.tags.len() {
                    assert(tags[k] == st.tags[k]);
                }
            }
            lemma_layout_split(ls, i + 1, Layout { tags, ..st }, et);
        } else if is_table(l) {
            lemma_layout_split_table(ls, i, st, et);
        } else if is_docstring_marker(l) {
            let ind = indent(st.depth + 1);
            lemma_flush_split(et, st.em, st.tags, ind);
            let ef1 = flush(st.em, st.tags, ind, false);
            let et1 = flush(et, st.tags, ind, true);
            lemma_marker_nonblank(l);
            lemma_reindented_not_tag(ind, l);
            lemma_emit_line_split(et1, ef1, ind + trim(l));
            lemma_layout_split(
                ls,
                i + 1,
                Layout { tags: Seq::empty(), in_doc: true, em: emit_line(ef1, ind + trim(l)), ..st },
                emit_line(et1, ind + trim(l)),
            );
        } else {
            let ind = indent(crate::formatter::line_depth(st, l));
            assert(crate::formatter::line_depth(sa, l) == crate::formatter::line_depth(st, l));
            lemma_flush_split(et, st.em, st.tags, ind);
            let ef1 = flush(st.em, st.tags, ind, false);
            let et1 = flush(et, st.tags, ind, true);
            lemma_reindented_not_tag(ind, l);
            lemma_emit_line_split(et1, ef1, ind + trim(l));
            let sb1 = crate::formatter::after_header(
                Layout { tags: Seq::empty(), em: emit_line(ef1, ind + trim(l)), ..st },
                l,
            );
            let sa1 = crate::formatter::after_header(
                Layout { tags: Seq::empty(), em: emit_line(et1, ind + trim(l)), ..sa },
                l,
            );
            assert(sa1 == Layout { em: emit_line(et1, ind + trim(l)), ..sb1 });
            lemma_layout_split(ls, i + 1, sb1, emit_line(et1, ind + trim(l)));
        }
    }
}

proof fn lemma_layout_split_table(ls: Seq<Seq<char>>, i: int, st: Layout, et: Emit)
    requires
        0 <= i < ls.len(),
        !st.in_doc,
        !is_blank(ls[i]),
        !is_tag(ls[i]),
        is_table(ls[i]),
        tags_split(et, st.em),
        tags_at(st.tags),
    ensures
        ({
            let a = layout_from(ls, i, Layout { em: et, ..st }, true);
            let b = layout_from(ls, i, st, false);
            &&& tags_split(a.em, b.em)
            &&& a == Layout { em: a.em, ..b }
            &&& tags_at(b.tags)
        }),
    decreases ls.len() - i, 1int,
{
    let l = ls[i];
    let sa = Layout { em: et, ..st };
    let j = table_end(ls, i);
    lemma_table_end(ls, i + 1);
    let ind = crate::formatter::table_indent(st, l);
    assert(crate::formatter::table_indent(sa, l) == ind);
    assert forall|k: int| 0 <= k < ind.len() implies is_ws(#[trigger] ind[k]) by {
        if !st.seen_header {
            lemma_skip_ws(l, 0);
            assert(ind[k] == l[k]);
        }
    }
    lemma_flush_split(et, st.em, st.tags, ind);
    let ef1 = flush(st.em, st.tags, ind, false);
    let et1 = flush(et, st.tags, ind, true);
    let rows = table_rows(ls.subrange(i, j), ind);
    lemma_rows_not_tags(ls.subrange(i, j), ind);
    lemma_emit_all_split(et1, ef1, rows);
    lemma_layout_split(ls, j, Layout { tags: Seq::empty(), em: emit_all(ef1, rows), ..st }, emit_all(et1, rows));
}

proof fn lemma_tag_trim(l: Seq<char>)
    requires
        is_tag(l),
    ensures
        trim(l).len() > 0,
        trim(l)[0] == '@',
{
    reveal_strlit("@");
    let t = trim_start(l);
    assert(t.take(1)[0] == t[0]);
    assert(t[0] == '@');
    lemma_trail_end(t, t.len() as int);
    if trail_end(t, t.len() as int) == 0 {
        assert(is_ws(t[0]));
    }
}

/// One tag per line (`--tags-per-line`) gives the joined output with every
/// tag line split into one line per tag, each at the tag line's indent;
/// doc-string content is left alone.
pub proof fn law_tags_per_line_splits_joined(input: Seq<char>)
    ensures
        layout(input, true).lines == split_tag_lines(layout(input, false).lines, layout(input, false).body),
        formatted(input, true) == render(
            split_tag_lines(layout(input, false).lines, layout(input, false).body),
        ),
{
    let ls = input_lines(input);
    let st0 = layout_new();
    assert(split_tag_lines(st0.em.lines, st0.em.body) =~= Seq::<Seq<char>>::empty());
    assert(st0 == Layout { em: st0.em, ..st0 });
    lemma_layout_split(ls, 0, st0, st0.em);
    let a = layout_from(ls, 0, st0, true);
    let b = layout_from(ls, 0, st0, false);
    assert(st0 == Layout { em: emit_new(), ..st0 });
    assert forall|k: int| 0 <= k < indent(b.depth).len() implies is_ws(#[trigger] indent(b.depth)[k]) by {}
    lemma_flush_split(a.em, b.em, b.tags, indent(b.depth));
}

// ---------- formatting twice ----------

/// A prefix that ends in a non-blank character survives trailing-whitespace
/// removal.
proof fn lemma_prefix_trim_end(t: Seq<char>, kw: Seq<char>)
    requires
        kw.len() > 0,
        !is_ws(kw.last()),
    ensures
        has_prefix(trim_end(t), kw) == has_prefix(t, kw),
{
    let e = trail_end(t, t.len() as int);
    lemma_trail_end(t, t.len() as int);
    let t2 = trim_end(t);
    assert(t2 == t.take(e));
    if has_prefix(t, kw) {
        assert(t[kw.len() - 1] == t.take(kw.len() as int)[kw.len() - 1]);
        if kw.len() > e {
            assert(is_ws(t[kw.len() - 1]));
        }
        assert(t2.take(kw.len() as int) =~= t.take(kw.len() as int));
    }
    if has_prefix(t2, kw) {
        assert(t2.take(kw.len() as int) =~= t.take(kw.len() as int));
    }
}

proof fn lemma_skip_ws_take(u: Seq<char>, m: int)
    requires
        0 <= m <= u.len(),
    ensures
        skip_ws(u.take(m), 0) == if skip_ws(u, 0) < m { skip_ws(u, 0) } else { m },
{
    lemma_skip_ws(u, 0);
    let s0 = skip_ws(u, 0);
    let v = u.take(m);
    let x = if s0 < m { s0 } else { m };
    assert forall|k: int| 0 <= k < x implies is_ws(#[trigger] v[k]) by {
        assert(v[k] == u[k]);
    }
    if x < m {
        assert(v[x] == u[x]);
    }
    lemma_skip_ws_exact(v, 0, x);
}

/// `trim_start` of a truncated text starts with `kw` exactly when that of
/// the whole text does and the keyword lies within the truncation.
proof fn lemma_prefix_trim_start_take(u: Seq<char>, m: int, kw: Seq<char>)
    requires
        0 <= m <= u.len(),
        kw.len() > 0,
        !is_ws(kw.last()),
        forall|k: int| m <= k < u.len() ==> is_ws(#[trigger] u[k]),
    ensures
        has_prefix(trim_start(u.take(m)), kw) == has_prefix(trim_start(u), kw),
{
    lemma_skip_ws_take(u, m);
    lemma_skip_ws(u, 0);
    let s0 = skip_ws(u, 0);
    let a = trim_start(u);
    let b = trim_start(u.take(m));
    if s0 < m {
        assert(b =~= a.take(m - s0));
        lemma_prefix_trim_end_at(a, m - s0, kw);
    } else {
        assert(b.len() == 0);
        if has_prefix(a, kw) {
            assert(a[kw.len() - 1] == a.take(kw.len() as int)[kw.len() - 1]);
            assert(a[kw.len() - 1] == u[s0 + kw.len() - 1]);
        }
    }
}

/// Cutting off only whitespace keeps a prefix that ends in a non-blank
/// character, and no new one appears.
proof fn lemma_prefix_trim_end_at(a: Seq<char>, n: int, kw: Seq<char>)
    requires
        0 <= n <= a.len(),
        kw.len() > 0,
        !is_ws(kw.last()),
        forall|k: int| n <= k < a.len() ==> is_ws(#[trigger] a[k]),
    ensures
        has_prefix(a.take(n), kw) == has_prefix(a, kw),
{
    if has_prefix(a, kw) {
        assert(a[kw.len() - 1] == a.take(kw.len() as int)[kw.len() - 1]);
        if kw.len() > n {
            assert(is_ws(a[kw.len() - 1]));
        }
        assert(a.take(n).take(kw.len() as int) =~= a.take(kw.len() as int));
    }
    if has_prefix(a.take(n), kw) {
        assert(a.take(n).take(kw.len() as int) =~= a.take(kw.len() as int));
    }
}

proof fn lemma_scenario_trim_end(t: Seq<char>)
    ensures
        ({
            let t2 = trim_end(t);
            let s1 = has_prefix(t2, "Scenario:"@) || has_prefix(t2, "Example:"@) || has_prefix(
                t2,
                "Scenario "@,
            ) && {
                let after = trim_start(t2.skip("Scenario "@.len() as int));
                has_prefix(after, "Outline:"@) || has_prefix(after, "Template:"@)
            };
            let s2 = has_prefix(t, "Scenario:"@) || has_prefix(t, "Example:"@) || has_prefix(
                t,
                "Scenario "@,
            ) && {
                let after = trim_start(t.skip("Scenario "@.len() as int));
                has_prefix(after, "Outline:"@) || has_prefix(after, "Template:"@)
            };
            s1 == s2
        }),
{
    reveal_strlit("Scenario:");
    reveal_strlit("Example:");
    reveal_strlit("Scenario ");
    reveal_strlit("Outline:");
    reveal_strlit("Template:");
    let e = trail_end(t, t.len() as int);
    lemma_trail_end(t, t.len() as int);
    let t2 = trim_end(t);
    assert(t2 == t.take(e));
    lemma_prefix_trim_end(t, "Scenario:"@);
    lemma_prefix_trim_end(t, "Example:"@);
    let sc = "Scenario "@;
    if e >= 9 {
        assert(t2.take(9) =~= t.take(9));
        let u = t.skip(9);
        assert(t2.skip(9) =~= u.take(e - 9));
        assert forall|k: int| e - 9 <= k < u.len() implies is_ws(#[trigger] u[k]) by {
            assert(u[k] == t[k + 9]);
        }
        lemma_prefix_trim_start_take(u, e - 9, "Outline:"@);
        lemma_prefix_trim_start_take(u, e - 9, "Template:"@);
    } else {
        if has_prefix(t, sc) {
            // the rest of `t` is blank, so no keyword follows
            let u = t.skip(9);
            assert forall|k: int| 0 <= k < u.len() implies is_ws(#[trigger] u[k]) by {
                assert(u[k] == t[k + 9]);
            }
            lemma_prefix_trim_start_take(u, 0, "Outline:"@);
            lemma_prefix_trim_start_take(u, 0, "Template:"@);
            assert(trim_start(u.take(0)).len() == 0);
        }
        if has_prefix(t2, sc) {
            assert(t2.len() >= 9);
        }
    }
}

/// Re-indenting a non-blank line keeps its trimmed text and every class the
/// layout tells lines apart by.
proof fn lemma_reindent_classes(ind: Seq<char>, l: Seq<char>)
    requires
        forall|k: int| 0 <= k < ind.len() ==> is_ws(#[trigger] ind[k]),
        !is_blank(l),
    ensures
        ({
            let x = ind + trim(l);
            &&& trim(x) == trim(l)
            &&& !is_blank(x)
            &&& is_tag(x) == is_tag(l)
            &&& is_table(x) == is_table(l)
            &&& is_docstring_marker(x) == is_docstring_marker(l)
            &&& is_feature(x) == is_feature(l)
            &&& is_rule(x) == is_rule(l)
            &&& is_background(x) == is_background(l)
            &&& is_scenario(x) == is_scenario(l)
        }),
{
    let x = ind + trim(l);
    let t = trim_start(l);
    lemma_trim_nonblank(l);
    lemma_starts_after_ws(ind, trim(l));
    lemma_trim_ends(l);
    lemma_trail_end_exact(trim(l), trim(l).len() as int, trim(l).len() as int);
    assert(trim(x) =~= trim(l));
    assert(trim(l) == trim_end(t));
    reveal_strlit("@");
    reveal_strlit("|");
    reveal_strlit("\"\"\"");
    reveal_strlit("```");
    reveal_strlit("Feature:");
    reveal_strlit("Rule:");
    reveal_strlit("Background:");
    lemma_prefix_trim_end(t, "@"@);
    lemma_prefix_trim_end(t, "|"@);
    lemma_prefix_trim_end(t, "\"\"\""@);
    lemma_prefix_trim_end(t, "```"@);
    lemma_prefix_trim_end(t, "Feature:"@);
    lemma_prefix_trim_end(t, "Rule:"@);
    lemma_prefix_trim_end(t, "Background:"@);
    lemma_scenario_trim_end(t);
}

/// What the layout emits from line `i` on, the final flush of dangling tags
/// included.
pub open spec fn finish(ls: Seq<Seq<char>>, i: int, st: Layout, per_line: bool) -> Emit {
    let s = layout_from(ls, i, st, per_line);
    flush(s.em, s.tags, indent(s.depth), per_line)
}

/// The state the second pass holds when it has read everything the first
/// pass emitted: no pending tags and no owed blank line.
pub open spec fn sync(st: Layout) -> Layout {
    Layout { tags: Seq::empty(), em: Emit { pending_blank: false, ..st.em }, ..st }
}

/// `a` is the start of `b`.
pub open spec fn extends(a: Seq<Seq<char>>, b: Seq<Seq<char>>) -> bool {
    a.len() <= b.len() && b.take(a.len() as int) == a
}

/// The tag lines that `flush` emits.
pub open spec fn tag_lines(tags: Seq<Seq<char>>, ind: Seq<char>, per_line: bool) -> Seq<Seq<char>> {
    if tags.len() == 0 {
        Seq::empty()
    } else if per_line {
        prefix_each(ind, all_words(tags))
    } else {
        seq![ind + join(all_words(tags), seq![' '])]
    }
}

/// The lines emitted before the next line: an owed blank line, then the
/// pending tags.
pub open spec fn pre_lines(e: Emit, tags: Seq<Seq<char>>, ind: Seq<char>, per_line: bool) -> Seq<Seq<char>> {
    (if e.pending_blank && !e.at_start {
        seq![Seq::<char>::empty()]
    } else {
        Seq::<Seq<char>>::empty()
    }) + tag_lines(tags, ind, per_line)
}

proof fn lemma_ext_trans(a: Seq<Seq<char>>, b: Seq<Seq<char>>, c: Seq<Seq<char>>)
    requires
        extends(a, b),
        extends(b, c),
    ensures
        extends(a, c),
{
    assert(c.take(a.len() as int) =~= c.take(b.len() as int).take(a.len() as int));
}

proof fn lemma_ext_append(a: Seq<Seq<char>>, x: Seq<Seq<char>>)
    ensures
        extends(a, a + x),
{
    assert((a + x).take(a.len() as int) =~= a);
}

/// Flushing emits the owed blank line and the tag lines (nothing at all
/// when no tag is pending).
proof fn lemma_flush_lines(e: Emit, tags: Seq<Seq<char>>, ind: Seq<char>, per_line: bool)
    requires
        tags_at(tags),
    ensures
        tags.len() > 0 ==> flush(e, tags, ind, per_line).lines == e.lines + pre_lines(e, tags, ind, per_line),
        tags.len() > 0 ==> !flush(e, tags, ind, per_line).pending_blank && !flush(e, tags, ind, per_line).at_start,
        tags.len() == 0 ==> flush(e, tags, ind, per_line) == e,
        extends(e.lines, flush(e, tags, ind, per_line).lines),
{
    let pre = if e.pending_blank && !e.at_start {
        seq![Seq::<char>::empty()]
    } else {
        Seq::<Seq<char>>::empty()
    };
    if tags.len() > 0 {
        lemma_all_words_solid(tags);
        if per_line {
            let rows = prefix_each(ind, all_words(tags));
            lemma_emit_all_lines(e, rows);
            if e.pending_blank && !e.at_start {
                assert(e.lines.push(Seq::empty()) + rows =~= e.lines + (pre + rows));
            } else {
                assert(e.lines + rows =~= e.lines + (pre + rows));
            }
        } else {
            let x = ind + join(all_words(tags), seq![' ']);
            if e.pending_blank && !e.at_start {
                assert(e.lines.push(Seq::empty()).push(x) =~= e.lines + (pre + seq![x]));
            } else {
                assert(e.lines.push(x) =~= e.lines + (pre + seq![x]));
            }
        }
        lemma_ext_append(e.lines, pre_lines(e, tags, ind, per_line));
    } else {
        assert(e.lines.take(e.lines.len() as int) =~= e.lines);
    }
}

/// Emitting a line after flushing: the owed blank line, the tags, the line.
proof fn lemma_step_lines(e: Emit, tags: Seq<Seq<char>>, ind: Seq<char>, per_line: bool, x: Seq<char>)
    requires
        tags_at(tags),
    ensures
        emit_line(flush(e, tags, ind, per_line), x).lines == e.lines + pre_lines(e, tags, ind, per_line)
            + seq![x],
{
    lemma_flush_lines(e, tags, ind, per_line);
    let f = flush(e, tags, ind, per_line);
    if tags.len() > 0 {
        assert(emit_line(f, x).lines == f.lines.push(x));
        assert(f.lines.push(x) =~= e.lines + pre_lines(e, tags, ind, per_line) + seq![x]);
    } else {
        assert(tag_lines(tags, ind, per_line) =~= Seq::<Seq<char>>::empty());
        if e.pending_blank && !e.at_start {
            assert(e.lines.push(Seq::empty()).push(x) =~= e.lines + pre_lines(e, tags, ind, per_line)
                + seq![x]);
        } else {
            assert(e.lines.push(x) =~= e.lines + pre_lines(e, tags, ind, per_line) + seq![x]);
        }
    }
}

/// Emitting table rows after flushing: the owed blank line, the tags, the
/// rows.
proof fn lemma_rows_lines(e: Emit, tags: Seq<Seq<char>>, ind: Seq<char>, per_line: bool, rows: Seq<Seq<char>>)
    requires
        tags_at(tags),
        rows.len() > 0,
    ensures
        emit_all(flush(e, tags, ind, per_line), rows).lines == e.lines + pre_lines(e, tags, ind, per_line)
            + rows,
        !emit_all(flush(e, tags, ind, per_line), rows).pending_blank,
        !emit_all(flush(e, tags, ind, per_line), rows).at_start,
{
    lemma_flush_lines(e, tags, ind, per_line);
    let f = flush(e, tags, ind, per_line);
    lemma_emit_all_lines(f, rows);
    if tags.len() > 0 {
        assert(f.lines + rows =~= e.lines + pre_lines(e, tags, ind, per_line) + rows);
    } else {
        assert(tag_lines(tags, ind, per_line) =~= Seq::<Seq<char>>::empty());
        if e.pending_blank && !e.at_start {
            assert(e.lines.push(Seq::empty()) + rows =~= e.lines + pre_lines(e, tags, ind, per_line) + rows);
        } else {
            assert(e.lines + rows =~= e.lines + pre_lines(e, tags, ind, per_line) + rows);
        }
    }
}

proof fn lemma_verbatim_ext(e: Emit, x: Seq<char>)
    ensures
        extends(e.lines, emit_verbatim(e, x).lines),
        extends(e.lines, emit_line(e, x).lines),
        extends(e.lines, emit_blank(e).lines),
{
    assert(e.lines.push(x).take(e.lines.len() as int) =~= e.lines);
    assert(e.lines.push(Seq::empty()).push(x).take(e.lines.len() as int) =~= e.lines);
    assert(e.lines.take(e.lines.len() as int) =~= e.lines);
}

/// Whatever follows only adds lines.
proof fn lemma_finish_extends(ls: Seq<Seq<char>>, i: int, st: Layout, per_line: bool)
    requires
        tags_at(st.tags),
    ensures
        extends(st.em.lines, finish(ls, i, st, per_line).lines),
    decreases ls.len() - i,
{
    if i < 0 || i >= ls.len() {
        lemma_flush_lines(st.em, st.tags, indent(st.depth), per_line);
    } else {
        let l = ls[i];
        if st.in_doc {
            if is_docstring_marker(l) {
                let x = indent(st.depth + 1) + trim(l);
                lemma_verbatim_ext(st.em, x);
                let s1 = Layout { in_doc: false, em: emit_line(st.em, x), ..st };
                lemma_finish_extends(ls, i + 1, s1, per_line);
                lemma_ext_trans(st.em.lines, s1.em.lines, finish(ls, i + 1, s1, per_line).lines);
            } else {
                lemma_verbatim_ext(st.em, l);
                let s1 = Layout { em: emit_verbatim(st.em, l), ..st };
                lemma_finish_extends(ls, i + 1, s1, per_line);
                lemma_ext_trans(st.em.lines, s1.em.lines, finish(ls, i + 1, s1, per_line).lines);
            }
        } else if is_blank(l) {
            lemma_verbatim_ext(st.em, l);
            let s1 = Layout { em: emit_blank(st.em), ..st };
            lemma_finish_extends(ls, i + 1, s1, per_line);
            lemma_ext_trans(st.em.lines, s1.em.lines, finish(ls, i + 1, s1, per_line).lines);
        } else if is_tag(l) {
            lemma_tag_trim(l);
            let tags = st.tags.push(trim(l));
            assert forall|k: int| 0 <= k < tags.len() implies (#[trigger] tags[k]).len() > 0 && tags[k][0] == '@' by {
                if k < st.tags.len() {
                    assert(tags[k] == st.tags[k]);
                }
            }
            lemma_finish_extends(ls, i + 1, Layout { tags, ..st }, per_line);
        } else if is_table(l) {
            let j = table_end(ls, i);
            lemma_table_end(ls, i + 1);
            let ind = crate::formatter::table_indent(st, l);
            let rows = table_rows(ls.subrange(i, j), ind);
            assert(rows.len() > 0);
            lemma_rows_lines(st.em, st.tags, ind, per_line, rows);
            let s1 = Layout { tags: Seq::empty(), em: emit_all(flush(st.em, st.tags, ind, per_line), rows), ..st };
            lemma_ext_append(st.em.lines, pre_lines(st.em, st.tags, ind, per_line) + rows);
            assert(st.em.lines + pre_lines(st.em, st.tags, ind, per_line) + rows =~= st.em.lines + (pre_lines(
                st.em,
                st.tags,
                ind,
                per_line,
            ) + rows));
            lemma_finish_extends(ls, j, s1, per_line);
            lemma_ext_trans(st.em.lines, s1.em.lines, finish(ls, j, s1, per_line).lines);
        } else {
            let ind = if is_docstring_marker(l) {
                indent(st.depth + 1)
            } else {
                indent(crate::formatter::line_depth(st, l))
            };
            let x = ind + trim(l);
            lemma_step_lines(st.em, st.tags, ind, per_line, x);
            let em = emit_line(flush(st.em, st.tags, ind, per_line), x);
            lemma_ext_append(st.em.lines, pre_lines(st.em, st.tags, ind, per_line) + seq![x]);
            assert(st.em.lines + pre_lines(st.em, st.tags, ind, per_line) + seq![x] =~= st.em.lines + (
            pre_lines(st.em, st.tags, ind, per_line) + seq![x]));
            let s1 = if is_docstring_marker(l) {
                Layout { tags: Seq::empty(), in_doc: true, em, ..st }
            } else {
                crate::formatter::after_header(Layout { tags: Seq::empty(), em, ..st }, l)
            };
            assert(s1.em == em);
            lemma_finish_extends(ls, i + 1, s1, per_line);
            lemma_ext_trans(st.em.lines, s1.em.lines, finish(ls, i + 1, s1, per_line).lines);
        }
    }
}

/// Tag lines are no table rows.
proof fn lemma_tag_lines_not_table(tags: Seq<Seq<char>>, ind: Seq<char>, per_line: bool)
    requires
        tags_at(tags),
        tags.len() > 0,
        forall|k: int| 0 <= k < ind.len() ==> is_ws(#[trigger] ind[k]),
    ensures
        tag_lines(tags, ind, per_line).len() > 0,
        !is_table(tag_lines(tags, ind, per_line)[0]),
{
    lemma_all_words_solid(tags);
    let ws = all_words(tags);
    reveal_strlit("|");
    if per_line {
        assert(tag_lines(tags, ind, per_line)[0] == ind + ws[0]);
        lemma_starts_after_ws(ind, ws[0]);
        if is_table(ind + ws[0]) {
            assert(ws[0].take(1)[0] == ws[0][0]);
        }
    } else {
        lemma_words_joined(Seq::empty(), ws);
        let j = join(ws, seq![' ']);
        assert(Seq::<char>::empty() + j =~= j);
        lemma_starts_after_ws(ind, j);
        if is_table(ind + j) {
            assert(j.take(1)[0] == j[0]);
        }
    }
}

proof fn lemma_blank_not_table()
    ensures
        !is_table(Seq::<char>::empty()),
        is_blank(Seq::<char>::empty()),
{
    assert(trim_start(Seq::<char>::empty()) =~= Seq::<char>::empty());
    assert(trim(Seq::<char>::empty()) =~= Seq::<char>::empty());
    reveal_strlit("|");
}

/// After a table region, the next line emitted (if any) is no table row.
proof fn lemma_next_not_table(ls: Seq<Seq<char>>, k: int, st: Layout, per_line: bool)
    requires
        0 <= k <= ls.len(),
        !st.in_doc,
        !st.em.at_start,
        tags_at(st.tags),
        k == ls.len() || !is_table(ls[k]) || st.em.pending_blank || st.tags.len() > 0,
    ensures
        ({
            let f = finish(ls, k, st, per_line).lines;
            f.len() == st.em.lines.len() || !is_table(f[st.em.lines.len() as int])
        }),
    decreases ls.len() - k,
{
    let n = st.em.lines.len() as int;
    lemma_blank_not_table();
    if k == ls.len() {
        lemma_flush_lines(st.em, st.tags, indent(st.depth), per_line);
        if st.tags.len() > 0 {
            lemma_tag_lines_not_table(st.tags, indent(st.depth), per_line);
            let f = finish(ls, k, st, per_line).lines;
            let pre = pre_lines(st.em, st.tags, indent(st.depth), per_line);
            assert(f[n] == pre[0]);
        }
    } else {
        let l = ls[k];
        if is_blank(l) {
            lemma_next_not_table(ls, k + 1, Layout { em: emit_blank(st.em), ..st }, per_line);
        } else if is_tag(l) {
            lemma_tag_trim(l);
            let tags = st.tags.push(trim(l));
            assert forall|m: int| 0 <= m < tags.len() implies (#[trigger] tags[m]).len() > 0 && tags[m][0] == '@' by {
                if m < st.tags.len() {
                    assert(tags[m] == st.tags[m]);
                }
            }
            lemma_next_not_table(ls, k + 1, Layout { tags, ..st }, per_line);
        } else {
            // the first new line: an owed blank, a tag line, or the line itself
            let ind = if is_table(l) {
                crate::formatter::table_indent(st, l)
            } else if is_docstring_marker(l) {
                indent(st.depth + 1)
            } else {
                indent(crate::formatter::line_depth(st, l))
            };
            assert forall|m: int| 0 <= m < ind.len() implies is_ws(#[trigger] ind[m]) by {
                if is_table(l) && !st.seen_header {
                    lemma_skip_ws(l, 0);
                    assert(ind[m] == l[m]);
                }
            }
            let pre = pre_lines(st.em, st.tags, ind, per_line);
            let s1 = layout_from(ls, k, st, per_line);
            assert(finish(ls, k, st, per_line) == finish(ls, k, st, per_line));
            if is_table(l) {
                let j = table_end(ls, k);
                lemma_table_end(ls, k + 1);
                let rows = table_rows(ls.subrange(k, j), ind);
                lemma_rows_lines(st.em, st.tags, ind, per_line, rows);
                let st1 = Layout { tags: Seq::empty(), em: emit_all(flush(st.em, st.tags, ind, per_line), rows), ..st };
                assert(layout_from(ls, k, st, per_line) == layout_from(ls, j, st1, per_line));
                lemma_finish_extends(ls, j, st1, per_line);
                let f = finish(ls, j, st1, per_line).lines;
                assert(f[n] == st1.em.lines[n]);
                assert(pre.len() > 0) by {
                    if !(st.em.pending_blank && !st.em.at_start) {
                        lemma_tag_lines_not_table(st.tags, ind, per_line);
                    }
                }
                assert(st1.em.lines[n] == pre[0]);
                if !(st.em.pending_blank && !st.em.at_start) {
                    lemma_tag_lines_not_table(st.tags, ind, per_line);
                    assert(pre[0] == tag_lines(st.tags, ind, per_line)[0]);
                }
            } else {
                let x = ind + trim(l);
                lemma_reindent_classes(ind, l);
                lemma_step_lines(st.em, st.tags, ind, per_line, x);
                let em = emit_line(flush(st.em, st.tags, ind, per_line), x);
                let st1 = if is_docstring_marker(l) {
                    Layout { tags: Seq::empty(), in_doc: true, em, ..st }
                } else {
                    crate::formatter::after_header(Layout { tags: Seq::empty(), em, ..st }, l)
                };
                assert(st1.em == em);
                assert(layout_from(ls, k, st, per_line) == layout_from(ls, k + 1, st1, per_line));
                lemma_finish_extends(ls, k + 1, st1, per_line);
                let f = finish(ls, k + 1, st1, per_line).lines;
                assert(f[n] == em.lines[n]);
                let all = pre + seq![x];
                assert(em.lines[n] == all[0]);
                if pre.len() > 0 {
                    if !(st.em.pending_blank && !st.em.at_start) {
                        lemma_tag_lines_not_table(st.tags, ind, per_line);
                        assert(pre[0] == tag_lines(st.tags, ind, per_line)[0]);
                    }
                    assert(all[0] == pre[0]);
                } else {
                    assert(all[0] == x);
                }
            }
        }
    }
}

proof fn lemma_table_end_exact(ls: Seq<Seq<char>>, i: int, j: int)
    requires
        0 <= i <= j <= ls.len(),
        forall|k: int| i <= k < j ==> is_table(#[trigger] ls[k]),
        j < ls.len() ==> !is_table(ls[j]),
    ensures
        table_end(ls, i) == j,
    decreases j - i,
{
    if i < j {
        assert(is_table(ls[i]));
        lemma_table_end_exact(ls, i + 1, j);
    }
}

/// An aligned table is aligned already.
proof fn lemma_table_fixed(rows: Seq<Seq<char>>, ind: Seq<char>)
    requires
        forall|k: int| 0 <= k < ind.len() ==> is_ws(#[trigger] ind[k]),
    ensures
        table_rows(table_rows(rows, ind), ind) == table_rows(rows, ind),
        forall|k: int| 0 <= k < table_rows(rows, ind).len() ==> is_table(#[trigger] table_rows(rows, ind)[k]),
        forall|k: int| 0 <= k < table_rows(rows, ind).len() ==> !is_blank(#[trigger] table_rows(rows, ind)[k]),
        forall|k: int| 0 <= k < table_rows(rows, ind).len() ==> !is_tag(#[trigger] table_rows(rows, ind)[k]),
        forall|k: int|
            0 <= k < table_rows(rows, ind).len() ==> leading_indent(#[trigger] table_rows(rows, ind)[k])
                == ind,
{
    let out = table_rows(rows, ind);
    law_table_rows_split_back(rows, ind);
    assert(parse_rows(out) =~= parse_rows(rows)) by {
        assert forall|r: int| 0 <= r < out.len() implies parse_rows(out)[r] == parse_rows(rows)[r] by {
            assert(row_cells(out[r]) == row_cells(rows[r]));
        }
    }
    assert(table_rows(out, ind) =~= out);
    reveal_strlit("|");
    reveal_strlit("@");
    assert forall|k: int| 0 <= k < out.len() implies is_table(#[trigger] out[k]) && !is_blank(out[k])
        && leading_indent(out[k]) == ind && !is_tag(out[k]) by {
        let p = parse_rows(rows);
        let x = seq!['|'] + segs(p[k], widths(p), numerics(p), p[k].len() as int);
        assert(out[k] == ind + x);
        assert(x[0] == '|');
        lemma_starts_after_ws(ind, x);
        assert(x.take(1) =~= "|"@);
        if is_tag(out[k]) {
            assert(x.take(1)[0] == "@"@[0]);
        }
        lemma_skip_ws(out[k], 0);
        let t = trim_start(out[k]);
        lemma_trail_end(t, t.len() as int);
        if trail_end(t, t.len() as int) == 0 {
            assert(is_ws(t[0]));
        }
    }
}

pub open spec fn trims(ls: Seq<Seq<char>>) -> Seq<Seq<char>> {
    ls.map_values(|l: Seq<char>| trim(l))
}

/// The second pass reads tag lines into its pending tags.
proof fn lemma_pass_tags(L: Seq<Seq<char>>, j: int, s: Layout, lines: Seq<Seq<char>>, per_line: bool)
    requires
        0 <= j,
        j + lines.len() <= L.len(),
        L.subrange(j, j + lines.len()) == lines,
        !s.in_doc,
        forall|k: int| 0 <= k < lines.len() ==> is_tag(#[trigger] lines[k]) && !is_blank(lines[k]),
    ensures
        layout_from(L, j, s, per_line) == layout_from(
            L,
            j + lines.len(),
            Layout { tags: s.tags + trims(lines), ..s },
            per_line,
        ),
    decreases lines.len(),
{
    if lines.len() == 0 {
        assert(s.tags + trims(lines) =~= s.tags);
        assert(Layout { tags: s.tags + trims(lines), ..s } == s);
    } else {
        assert(L[j] == L.subrange(j, j + lines.len())[0]);
        assert(is_tag(lines[0]) && !is_blank(lines[0]));
        let s1 = Layout { tags: s.tags.push(trim(lines[0])), ..s };
        assert(layout_from(L, j, s, per_line) == layout_from(L, j + 1, s1, per_line));
        let rest = lines.drop_first();
        assert(L.subrange(j + 1, j + 1 + rest.len()) =~= rest);
        lemma_pass_tags(L, j + 1, s1, rest, per_line);
        assert(s1.tags + trims(rest) =~= s.tags + trims(lines));
    }
}

proof fn lemma_all_words_solid_self(ws: Seq<Seq<char>>)
    requires
        forall|k: int| 0 <= k < ws.len() ==> solid(#[trigger] ws[k]),
    ensures
        all_words(ws) == ws,
    decreases ws.len(),
{
    if ws.len() > 0 {
        let p = ws.drop_last();
        assert forall|k: int| 0 <= k < p.len() implies solid(#[trigger] p[k]) by {
            assert(p[k] == ws[k]);
        }
        lemma_all_words_solid_self(p);
        let w = ws.last();
        assert(solid(ws[ws.len() - 1]));
        lemma_words_joined(Seq::empty(), seq![w]);
        assert(join(seq![w], seq![' ']) == w);
        assert(Seq::<char>::empty() + w =~= w);
        assert(p + seq![w] =~= ws);
    }
}

/// A tag word that, on a line of its own, reads as free text: no table
/// row, doc-string marker or header.
pub open spec fn inert(w: Seq<char>) -> bool {
    &&& !is_table(w)
    &&& !is_docstring_marker(w)
    &&& !is_feature(w)
    &&& !is_rule(w)
    &&& !is_background(w)
    &&& !is_scenario(w)
}

/// Flushing `tags` at `ind` can be read back: every word is a tag, or is
/// free text emitted at the depth that free text takes there (`depth`).
pub open spec fn flush_ok(tags: Seq<Seq<char>>, ind: Seq<char>, depth: nat) -> bool {
    forall|k: int|
        0 <= k < all_words(tags).len() ==> (#[trigger] all_words(tags)[k])[0] == '@' || (ind == indent(
            depth,
        ) && inert(all_words(tags)[k]))
}

/// Every flush of the layout of `ls[i..]` from `st` can be read back (see
/// `flush_ok`).
pub open spec fn flushes_ok(ls: Seq<Seq<char>>, i: int, st: Layout, per_line: bool) -> bool
    decreases ls.len() - i,
{
    if i < 0 || i >= ls.len() {
        flush_ok(st.tags, indent(st.depth), st.depth)
    } else {
        let l = ls[i];
        if st.in_doc {
            if is_docstring_marker(l) {
                let em = emit_line(st.em, indent(st.depth + 1) + trim(l));
                flushes_ok(ls, i + 1, Layout { in_doc: false, em, ..st }, per_line)
            } else {
                flushes_ok(ls, i + 1, Layout { em: emit_verbatim(st.em, l), ..st }, per_line)
            }
        } else if is_blank(l) {
            flushes_ok(ls, i + 1, Layout { em: emit_blank(st.em), ..st }, per_line)
        } else if is_tag(l) {
            flushes_ok(ls, i + 1, Layout { tags: st.tags.push(trim(l)), ..st }, per_line)
        } else if is_table(l) {
            let j = table_end(ls, i);
            let ind = crate::formatter::table_indent(st, l);
            let em = emit_all(flush(st.em, st.tags, ind, per_line), table_rows(ls.subrange(i, j), ind));
            proof {
                lemma_table_end(ls, i + 1);
            }
            flush_ok(st.tags, ind, st.depth) && flushes_ok(ls, j, Layout { tags: Seq::empty(), em, ..st }, per_line)
        } else if is_docstring_marker(l) {
            let ind = indent(st.depth + 1);
            let em = emit_line(flush(st.em, st.tags, ind, per_line), ind + trim(l));
            flush_ok(st.tags, ind, st.depth) && flushes_ok(
                ls,
                i + 1,
                Layout { tags: Seq::empty(), in_doc: true, em, ..st },
                per_line,
            )
        } else {
            let ind = indent(crate::formatter::line_depth(st, l));
            let em = emit_line(flush(st.em, st.tags, ind, per_line), ind + trim(l));
            flush_ok(st.tags, ind, st.depth) && flushes_ok(
                ls,
                i + 1,
                crate::formatter::after_header(Layout { tags: Seq::empty(), em, ..st }, l),
                per_line,
            )
        }
    }
}

/// The second pass reads one tag word per line: tags into its pending
/// tags, free text as lines of their own at the same indent; flushing what
/// it holds gives what the first pass emitted for those words.
proof fn lemma_pass_words(
    L: Seq<Seq<char>>,
    j: int,
    st: Layout,
    e0: Emit,
    ind: Seq<char>,
    ws: Seq<Seq<char>>,
    k: int,
    t: Seq<Seq<char>>,
    e: Emit,
) -> (r: (Seq<Seq<char>>, Emit))
    requires
        0 <= k <= ws.len(),
        0 <= j,
        j + ws.len() <= L.len(),
        L.subrange(j, j + ws.len()) == prefix_each(ind, ws),
        !st.in_doc,
        forall|m: int| 0 <= m < ind.len() ==> is_ws(#[trigger] ind[m]),
        forall|m: int| 0 <= m < ws.len() ==> solid(#[trigger] ws[m]),
        forall|m: int|
            0 <= m < ws.len() ==> (#[trigger] ws[m])[0] == '@' || (ind == indent(st.depth) && inert(ws[m])),
        forall|m: int| 0 <= m < t.len() ==> solid(#[trigger] t[m]) && t[m][0] == '@',
        flush(e, t, ind, true) == emit_all(e0, prefix_each(ind, ws.take(k))),
    ensures
        layout_from(L, j + k, Layout { tags: t, em: e, ..st }, true) == layout_from(
            L,
            j + ws.len(),
            Layout { tags: r.0, em: r.1, ..st },
            true,
        ),
        flush(r.1, r.0, ind, true) == emit_all(e0, prefix_each(ind, ws)),
    decreases ws.len() - k,
{
    if k == ws.len() {
        assert(ws.take(k) =~= ws);
        (t, e)
    } else {
        let w = ws[k];
        assert(solid(w));
        let x = ind + w;
        assert(L[j + k] == L.subrange(j, j + ws.len())[k]);
        assert(L[j + k] == x);
        let s = Layout { tags: t, em: e, ..st };
        lemma_all_words_solid_self(t);
        lemma_starts_after_ws(ind, w);
        lemma_trim_padded(ind, w, Seq::empty());
        assert(ind + w + Seq::<char>::empty() =~= x);
        assert(trim(x) == w);
        assert(!is_blank(x));
        assert(prefix_each(ind, ws.take(k + 1)) =~= prefix_each(ind, ws.take(k)).push(x));
        let pk = prefix_each(ind, ws.take(k));
        assert(emit_all(e0, pk.push(x)) == emit_line(emit_all(e0, pk), x)) by {
            assert(pk.push(x).drop_last() == pk);
        }
        // what flushing the current tags emits
        assert(flush(e, t, ind, true) == emit_all(e, prefix_each(ind, t))) by {
            if t.len() == 0 {
                assert(prefix_each(ind, t) =~= Seq::<Seq<char>>::empty());
            }
        }
        reveal_strlit("@");
        if w[0] == '@' {
            assert(trim_start(x).take(1) =~= "@"@);
            assert(is_tag(x));
            let t1 = t.push(w);
            assert(layout_from(L, j + k, s, true) == layout_from(L, j + k + 1, Layout { tags: t1, ..s }, true));
            assert forall|m: int| 0 <= m < t1.len() implies solid(#[trigger] t1[m]) && t1[m][0] == '@' by {
                if m < t.len() {
                    assert(t1[m] == t[m]);
                }
            }
            lemma_all_words_solid_self(t1);
            assert(prefix_each(ind, t1) =~= prefix_each(ind, t).push(x));
            assert(emit_all(e, prefix_each(ind, t1)) == emit_line(emit_all(e, prefix_each(ind, t)), x)) by {
                assert(prefix_each(ind, t1).drop_last() =~= prefix_each(ind, t));
            }
            assert(flush(e, t1, ind, true) == emit_all(e0, prefix_each(ind, ws.take(k + 1))));
            lemma_pass_words(L, j, st, e0, ind, ws, k + 1, t1, e)
        } else {
            assert(ind == indent(st.depth) && inert(w));
            // the word reads as free text at the current depth
            lemma_starts_after_ws(Seq::empty(), w);
            assert(Seq::<char>::empty() + w =~= w);
            if is_tag(x) {
                assert(trim_start(x).take(1)[0] == w[0]);
            }
            assert(!is_tag(x));
            assert(!is_table(x));
            assert(!is_docstring_marker(x));
            assert(crate::formatter::line_depth(s, x) == st.depth);
            let em1 = emit_line(flush(e, t, ind, true), ind + trim(x));
            let s1 = crate::formatter::after_header(Layout { tags: Seq::empty(), em: em1, ..s }, x);
            assert(s1 == Layout { tags: Seq::<Seq<char>>::empty(), em: em1, ..st });
            assert(layout_from(L, j + k, s, true) == layout_from(L, j + k + 1, s1, true));
            assert(flush(em1, Seq::empty(), ind, true) == emit_all(e0, prefix_each(ind, ws.take(k + 1))));
            lemma_pass_words(L, j, st, e0, ind, ws, k + 1, Seq::empty(), em1)
        }
    }
}

/// The second pass reads what the first emitted before a line (an owed
/// blank line, the tag lines) into the first pass's state, with pending
/// tags of the same words.
#[verifier::rlimit(100)]
#[verifier::spinoff_prover]
proof fn lemma_pass_pre(L: Seq<Seq<char>>, j: int, st: Layout, ind: Seq<char>, per_line: bool) -> (r: (
    Seq<Seq<char>>,
    Emit,
))
    requires
        !st.in_doc,
        tags_at(st.tags),
        st.em.pending_blank ==> !st.em.at_start,
        per_line ==> flush_ok(st.tags, ind, st.depth),
        forall|k: int| 0 <= k < ind.len() ==> is_ws(#[trigger] ind[k]),
        0 <= j,
        j + pre_lines(st.em, st.tags, ind, per_line).len() <= L.len(),
        L.subrange(j, j + pre_lines(st.em, st.tags, ind, per_line).len()) == pre_lines(
            st.em,
            st.tags,
            ind,
            per_line,
        ),
    ensures
        layout_from(L, j, sync(st), per_line) == layout_from(
            L,
            j + pre_lines(st.em, st.tags, ind, per_line).len(),
            Layout { tags: r.0, em: r.1, ..st },
            per_line,
        ),
        flush(r.1, r.0, ind, per_line) == flush(st.em, st.tags, ind, per_line),
{
    let pre = pre_lines(st.em, st.tags, ind, per_line);
    let tl = tag_lines(st.tags, ind, per_line);
    let s0 = sync(st);
    let owed = st.em.pending_blank && !st.em.at_start;
    let b = if owed { 1int } else { 0int };
    // the owed blank line
    let s1 = Layout { tags: Seq::empty(), ..st };
    lemma_blank_not_table();
    lemma_blank_not_tag();
    if owed {
        assert(L[j] == pre[0]);
        assert(layout_from(L, j, s0, per_line) == layout_from(L, j + 1, Layout { em: emit_blank(s0.em), ..s0 }, per_line));
        assert(Layout { em: emit_blank(s0.em), ..s0 } == s1);
    } else {
        assert(s0 == s1);
    }
    assert(pre == (if owed { seq![Seq::<char>::empty()] } else { Seq::<Seq<char>>::empty() }) + tl);
    assert(L.subrange(j + b, j + b + tl.len()) =~= tl) by {
        assert forall|k: int| 0 <= k < tl.len() implies L.subrange(j + b, j + b + tl.len())[k] == tl[k] by {
            assert(L[j + b + k] == L.subrange(j, j + pre.len())[b + k]);
        }
    }
    if st.tags.len() == 0 {
        assert(tl =~= Seq::<Seq<char>>::empty());
        assert(s1 == Layout { tags: Seq::<Seq<char>>::empty(), em: st.em, ..st });
        (Seq::empty(), st.em)
    } else {
        lemma_all_words_solid(st.tags);
        let ws = all_words(st.tags);
        if per_line {
            assert forall|m: int| 0 <= m < ws.len() implies solid(#[trigger] ws[m]) && (ws[m][0] == '@' || (ind
                == indent(st.depth) && inert(ws[m]))) by {}
            assert(tl == prefix_each(ind, ws));
            assert(flush(st.em, Seq::empty(), ind, true) == emit_all(st.em, prefix_each(ind, ws.take(0)))) by {
                assert(prefix_each(ind, ws.take(0)) =~= Seq::<Seq<char>>::empty());
            }
            let r = lemma_pass_words(L, j + b, st, st.em, ind, ws, 0, Seq::empty(), st.em);
            assert(s1 == Layout { tags: Seq::<Seq<char>>::empty(), em: st.em, ..st });
            r
        } else {
            let jn = join(ws, seq![' ']);
            lemma_words_joined(ind, ws);
            lemma_words_joined(Seq::empty(), ws);
            assert(Seq::<char>::empty() + jn =~= jn);
            let x = ind + jn;
            assert(tl == seq![x]);
            lemma_starts_after_ws(ind, jn);
            reveal_strlit("@");
            assert(trim_start(x).take(1) =~= "@"@);
            assert(is_tag(x));
            lemma_trim_padded(ind, jn, Seq::empty());
            assert(ind + jn + Seq::<char>::empty() =~= x);
            assert(!is_blank(x));
            lemma_pass_tags(L, j + b, s1, tl, per_line);
            let t2 = seq![jn];
            assert(trims(tl) =~= t2);
            assert(Seq::<Seq<char>>::empty() + t2 =~= t2);
            assert(all_words(t2) == all_words(t2.drop_last()) + words(jn));
            assert(all_words(t2.drop_last()) =~= Seq::<Seq<char>>::empty());
            assert(all_words(t2) =~= ws);
            assert(Layout { tags: t2, ..st } == Layout { tags: t2, em: st.em, ..st });
            (t2, st.em)
        }
    }
}

/// The invariant under which a second pass over the output repeats it.
pub open spec fn twice_ok(ls: Seq<Seq<char>>, i: int, st: Layout, per_line: bool) -> bool {
    &&& tags_at(st.tags)
    &&& st.em.pending_blank ==> !st.em.at_start
    &&& st.in_doc ==> !st.em.pending_blank && st.tags.len() == 0
    &&& per_line ==> flushes_ok(ls, i, st, per_line)
}

proof fn lemma_sub_of_ext(a: Seq<Seq<char>>, b: Seq<Seq<char>>, l: Seq<Seq<char>>)
    requires
        extends(a + b, l),
    ensures
        l.subrange(a.len() as int, (a.len() + b.len()) as int) == b,
        a.len() + b.len() <= l.len(),
{
    assert forall|k: int| 0 <= k < b.len() implies l.subrange(a.len() as int, (a.len() + b.len()) as int)[k]
        == b[k] by {
        assert(l[a.len() + k] == l.take((a + b).len() as int)[a.len() + k]);
        assert((a + b)[a.len() + k] == b[k]);
    }
    assert(l.subrange(a.len() as int, (a.len() + b.len()) as int) =~= b);
}

/// Formatting the output again from the point the first pass has reached
/// gives the rest of the output back.
proof fn lemma_twice(ls: Seq<Seq<char>>, i: int, st: Layout, per_line: bool, out: Seq<Seq<char>>)
    requires
        0 <= i <= ls.len(),
        twice_ok(ls, i, st, per_line),
        !layout_from(ls, i, st, per_line).in_doc,
        out == finish(ls, i, st, per_line).lines,
    ensures
        finish(out, st.em.lines.len() as int, sync(st), per_line).lines == out,
    decreases ls.len() - i, 2int,
{
    let j = st.em.lines.len() as int;
    assert(all_words(Seq::<Seq<char>>::empty()) =~= Seq::<Seq<char>>::empty());
    if i == ls.len() {
        lemma_twice_end(ls, i, st, per_line, out);
    } else {
        let l = ls[i];
        if st.in_doc {
            assert(st.tags =~= Seq::<Seq<char>>::empty());
            assert(Emit { pending_blank: false, ..st.em } == st.em);
            assert(sync(st) == st);
            if is_docstring_marker(l) {
                let x = indent(st.depth + 1) + trim(l);
                let st1 = Layout { in_doc: false, em: emit_line(st.em, x), ..st };
                assert(layout_from(ls, i, st, per_line) == layout_from(ls, i + 1, st1, per_line));
                lemma_finish_extends(ls, i + 1, st1, per_line);
                assert(st1.em.lines == st.em.lines + seq![x]);
                lemma_sub_of_ext(st.em.lines, seq![x], out);
                assert(out[j] == out.subrange(j, j + 1)[0]);
                assert(out[j] == x);
                lemma_marker_nonblank(l);
                lemma_reindent_classes(indent(st.depth + 1), l);
                assert(layout_from(out, j, st, per_line) == layout_from(out, j + 1, st1, per_line));
                assert(sync(st1) == st1);
                lemma_twice(ls, i + 1, st1, per_line, out);
            } else {
                let st1 = Layout { em: emit_verbatim(st.em, l), ..st };
                assert(layout_from(ls, i, st, per_line) == layout_from(ls, i + 1, st1, per_line));
                lemma_finish_extends(ls, i + 1, st1, per_line);
                assert(st1.em.lines == st.em.lines + seq![l]);
                lemma_sub_of_ext(st.em.lines, seq![l], out);
                assert(out[j] == out.subrange(j, j + 1)[0]);
                assert(out[j] == l);
                assert(layout_from(out, j, st, per_line) == layout_from(out, j + 1, st1, per_line));
                assert(sync(st1) == st1);
                lemma_twice(ls, i + 1, st1, per_line, out);
            }
        } else if is_blank(l) {
            let st1 = Layout { em: emit_blank(st.em), ..st };
            assert(layout_from(ls, i, st, per_line) == layout_from(ls, i + 1, st1, per_line));
            assert(sync(st1) == sync(st));
            lemma_twice(ls, i + 1, st1, per_line, out);
        } else if is_tag(l) {
            lemma_tag_trim(l);
            let tags = st.tags.push(trim(l));
            assert forall|k: int| 0 <= k < tags.len() implies (#[trigger] tags[k]).len() > 0 && tags[k][0] == '@' by {
                if k < st.tags.len() {
                    assert(tags[k] == st.tags[k]);
                }
            }
            let st1 = Layout { tags, ..st };
            assert(layout_from(ls, i, st, per_line) == layout_from(ls, i + 1, st1, per_line));
            assert(sync(st1) == sync(st));
            lemma_twice(ls, i + 1, st1, per_line, out);
        } else if is_table(l) {
            lemma_twice_table(ls, i, st, per_line, out);
        } else {
            lemma_twice_line(ls, i, st, per_line, out);
        }
    }
}

proof fn lemma_twice_end(ls: Seq<Seq<char>>, i: int, st: Layout, per_line: bool, out: Seq<Seq<char>>)
    requires
        i == ls.len(),
        twice_ok(ls, i, st, per_line),
        !layout_from(ls, i, st, per_line).in_doc,
        out == finish(ls, i, st, per_line).lines,
    ensures
        finish(out, st.em.lines.len() as int, sync(st), per_line).lines == out,
{
    let j = st.em.lines.len() as int;
    let ind = indent(st.depth);
    assert(layout_from(ls, i, st, per_line) == st);
    lemma_flush_lines(st.em, st.tags, ind, per_line);
    if st.tags.len() == 0 {
        assert(out == st.em.lines);
        assert(layout_from(out, j, sync(st), per_line) == sync(st));
        assert(flush(sync(st).em, sync(st).tags, indent(st.depth), per_line) == sync(st).em);
    } else {
        let pre = pre_lines(st.em, st.tags, ind, per_line);
        assert(out == st.em.lines + pre);
        assert(out.take(out.len() as int) =~= out);
        lemma_sub_of_ext(st.em.lines, pre, out);
        let r = lemma_pass_pre(out, j, st, ind, per_line);
        let s2 = Layout { tags: r.0, em: r.1, ..st };
        assert(layout_from(out, j + pre.len(), s2, per_line) == s2);
    }
}

#[verifier::rlimit(50)]
proof fn lemma_twice_line(ls: Seq<Seq<char>>, i: int, st: Layout, per_line: bool, out: Seq<Seq<char>>)
    requires
        0 <= i < ls.len(),
        !st.in_doc,
        !is_blank(ls[i]),
        !is_tag(ls[i]),
        !is_table(ls[i]),
        twice_ok(ls, i, st, per_line),
        !layout_from(ls, i, st, per_line).in_doc,
        out == finish(ls, i, st, per_line).lines,
    ensures
        finish(out, st.em.lines.len() as int, sync(st), per_line).lines == out,
    decreases ls.len() - i, 1int,
{
    let j = st.em.lines.len() as int;
    let l = ls[i];
    let marker = is_docstring_marker(l);
    let ind = if marker {
        indent(st.depth + 1)
    } else {
        indent(crate::formatter::line_depth(st, l))
    };
    let x = ind + trim(l);
    lemma_reindent_classes(ind, l);
    lemma_step_lines(st.em, st.tags, ind, per_line, x);
    let em = emit_line(flush(st.em, st.tags, ind, per_line), x);
    let st1 = if marker {
        Layout { tags: Seq::empty(), in_doc: true, em, ..st }
    } else {
        crate::formatter::after_header(Layout { tags: Seq::empty(), em, ..st }, l)
    };
    assert(st1.em == em);
    assert(layout_from(ls, i, st, per_line) == layout_from(ls, i + 1, st1, per_line));
    lemma_finish_extends(ls, i + 1, st1, per_line);
    let pre = pre_lines(st.em, st.tags, ind, per_line);
    assert(st.em.lines + pre + seq![x] =~= st.em.lines + (pre + seq![x]));
    lemma_sub_of_ext(st.em.lines, pre + seq![x], out);
    assert(out.subrange(j, j + pre.len()) =~= pre) by {
        assert forall|k: int| 0 <= k < pre.len() implies out.subrange(j, j + pre.len())[k] == pre[k] by {
            assert(out[j + k] == out.subrange(j, j + pre.len() + 1)[k]);
        }
    }
    assert(out[j + pre.len()] == x) by {
        assert(out[j + pre.len()] == out.subrange(j, j + pre.len() + 1)[pre.len() as int]);
    }
    let r = lemma_pass_pre(out, j, st, ind, per_line);
    let t2 = r.0;
    let s2 = Layout { tags: t2, em: r.1, ..st };
    assert(crate::formatter::line_depth(s2, x) == crate::formatter::line_depth(st, l));
    let next = if marker {
        Layout { tags: Seq::empty(), in_doc: true, em: emit_line(flush(s2.em, t2, ind, per_line), ind + trim(x)), ..s2 }
    } else {
        crate::formatter::after_header(
            Layout { tags: Seq::empty(), em: emit_line(flush(s2.em, t2, ind, per_line), ind + trim(x)), ..s2 },
            x,
        )
    };
    assert(layout_from(out, j + pre.len(), s2, per_line) == layout_from(out, j + pre.len() + 1, next, per_line));
    assert(next == st1);
    assert(sync(st1) == st1);
    assert(st1.em.lines.len() == j + pre.len() + 1);
    lemma_twice(ls, i + 1, st1, per_line, out);
}

#[verifier::rlimit(50)]
proof fn lemma_twice_table(ls: Seq<Seq<char>>, i: int, st: Layout, per_line: bool, out: Seq<Seq<char>>)
    requires
        0 <= i < ls.len(),
        !st.in_doc,
        !is_blank(ls[i]),
        !is_tag(ls[i]),
        is_table(ls[i]),
        twice_ok(ls, i, st, per_line),
        !layout_from(ls, i, st, per_line).in_doc,
        out == finish(ls, i, st, per_line).lines,
    ensures
        finish(out, st.em.lines.len() as int, sync(st), per_line).lines == out,
    decreases ls.len() - i, 1int,
{
    let j = st.em.lines.len() as int;
    let l = ls[i];
    let k = table_end(ls, i);
    lemma_table_end(ls, i + 1);
    let ind = crate::formatter::table_indent(st, l);
    assert forall|m: int| 0 <= m < ind.len() implies is_ws(#[trigger] ind[m]) by {
        if !st.seen_header {
            lemma_skip_ws(l, 0);
            assert(ind[m] == l[m]);
        }
    }
    let rows = table_rows(ls.subrange(i, k), ind);
    assert(rows.len() > 0);
    lemma_rows_lines(st.em, st.tags, ind, per_line, rows);
    let em = emit_all(flush(st.em, st.tags, ind, per_line), rows);
    let st1 = Layout { tags: Seq::empty(), em, ..st };
    assert(layout_from(ls, i, st, per_line) == layout_from(ls, k, st1, per_line));
    lemma_finish_extends(ls, k, st1, per_line);
    let pre = pre_lines(st.em, st.tags, ind, per_line);
    assert(st.em.lines + pre + rows =~= st.em.lines + (pre + rows));
    lemma_sub_of_ext(st.em.lines, pre + rows, out);
    let a = j + pre.len();
    let b = a + rows.len();
    assert(out.subrange(j, a) =~= pre) by {
        assert forall|m: int| 0 <= m < pre.len() implies out.subrange(j, a)[m] == pre[m] by {
            assert(out[j + m] == out.subrange(j, b)[m]);
        }
    }
    assert(out.subrange(a, b) =~= rows) by {
        assert forall|m: int| 0 <= m < rows.len() implies out.subrange(a, b)[m] == rows[m] by {
            assert(out[a + m] == out.subrange(j, b)[pre.len() + m]);
        }
    }
    // the region of the second pass ends where the rows end
    lemma_table_fixed(ls.subrange(i, k), ind);
    lemma_next_not_table(ls, k, st1, per_line);
    assert forall|m: int| a <= m < b implies is_table(#[trigger] out[m]) by {
        assert(out[m] == out.subrange(a, b)[m - a]);
    }
    lemma_table_end_exact(out, a, b);
    assert(out[a] == rows[0]);
    let r = lemma_pass_pre(out, j, st, ind, per_line);
    let t2 = r.0;
    let s2 = Layout { tags: t2, em: r.1, ..st };
    assert(crate::formatter::table_indent(s2, out[a]) == ind);
    assert(layout_from(out, a, s2, per_line) == layout_from(
        out,
        b,
        Layout { tags: Seq::empty(), em: emit_all(flush(s2.em, t2, ind, per_line), table_rows(out.subrange(a, b), ind)), ..s2 },
        per_line,
    ));
    assert(Layout { tags: Seq::empty(), em: emit_all(flush(s2.em, t2, ind, per_line), table_rows(out.subrange(a, b), ind)), ..s2 } == st1);
    assert(sync(st1) == st1);
    assert(st1.em.lines.len() == b);
    lemma_twice(ls, k, st1, per_line, out);
}

proof fn lemma_split_plain(x: Seq<char>)
    requires
        no_nl(x),
    ensures
        split_char(x, '\n') == seq![x],
    decreases x.len(),
{
    if x.len() > 0 {
        let p = x.drop_last();
        assert(no_nl(p)) by {
            assert forall|k: int| 0 <= k < p.len() implies (#[trigger] p[k]) != '\n' by {
                assert(p[k] == x[k]);
            }
        }
        lemma_split_plain(p);
        assert(x.last() == x[x.len() - 1]);
        assert(p.push(x.last()) =~= x);
        assert(seq![p].update(0, p.push(x.last())) =~= seq![x]);
    } else {
        assert(x =~= Seq::<char>::empty());
    }
}

proof fn lemma_split_cat(a: Seq<char>, b: Seq<char>)
    requires
        no_nl(b),
    ensures
        split_char(a + seq!['\n'] + b, '\n') == split_char(a, '\n').push(b),
    decreases b.len(),
{
    let s = a + seq!['\n'] + b;
    if b.len() == 0 {
        assert(s.drop_last() =~= a);
        assert(b =~= Seq::<char>::empty());
    } else {
        let p = b.drop_last();
        assert(no_nl(p)) by {
            assert forall|k: int| 0 <= k < p.len() implies (#[trigger] p[k]) != '\n' by {
                assert(p[k] == b[k]);
            }
        }
        lemma_split_cat(a, p);
        assert(s.drop_last() =~= a + seq!['\n'] + p);
        assert(s.last() == b[b.len() - 1]);
        let q = split_char(a, '\n').push(p);
        assert(q.last() == p);
        assert(p.push(s.last()) =~= b);
        assert(q.update(q.len() - 1, q.last().push(s.last())) =~= split_char(a, '\n').push(b));
    }
}

proof fn lemma_split_join(ls: Seq<Seq<char>>)
    requires
        ls.len() > 0,
        all_no_nl(ls),
    ensures
        split_char(join(ls, seq!['\n']), '\n') == ls,
    decreases ls.len(),
{
    if ls.len() == 1 {
        assert(no_nl(ls[0]));
        lemma_split_plain(ls[0]);
        assert(seq![ls[0]] =~= ls);
    } else {
        let p = ls.drop_last();
        assert(all_no_nl(p)) by {
            assert forall|k: int| 0 <= k < p.len() implies no_nl(#[trigger] p[k]) by {
                assert(p[k] == ls[k]);
            }
        }
        lemma_split_join(p);
        assert(no_nl(ls[ls.len() - 1]));
        lemma_split_cat(join(p, seq!['\n']), ls.last());
        assert(p.push(ls.last()) =~= ls);
    }
}

/// The output, read back as lines, is the emitted lines.
proof fn lemma_render_lines(ls: Seq<Seq<char>>)
    requires
        ls.len() > 0,
        all_no_nl(ls),
        ls.last().len() > 0,
    ensures
        input_lines(render(ls)) == ls,
{
    lemma_join_nl_last(ls);
    let s = join(ls, seq!['\n']);
    assert(no_nl(ls[ls.len() - 1]));
    assert(s.last() == ls.last()[ls.last().len() - 1]);
    assert(render(ls) == s.push('\n'));
    assert(s.push('\n').drop_last() =~= s);
    lemma_split_join(ls);
    assert(split_char(s.push('\n'), '\n') == ls.push(Seq::<char>::empty()));
    assert(ls.push(Seq::<char>::empty()).drop_last() =~= ls);
}

/// Outside a doc-string, the last emitted line is no doc-string content.
proof fn lemma_body_last(ls: Seq<Seq<char>>, i: int, st: Layout, per_line: bool)
    requires
        st.em.lines.len() == st.em.body.len(),
        !st.in_doc && st.em.lines.len() > 0 ==> !st.em.body.last(),
    ensures
        ({
            let s = layout_from(ls, i, st, per_line);
            &&& s.em.lines.len() == s.em.body.len()
            &&& !s.in_doc && s.em.lines.len() > 0 ==> !s.em.body.last()
        }),
    decreases ls.len() - i,
{
    if 0 <= i < ls.len() {
        let l = ls[i];
        if st.in_doc {
            if is_docstring_marker(l) {
                let x = indent(st.depth + 1) + trim(l);
                lemma_body_last(ls, i + 1, Layout { in_doc: false, em: emit_line(st.em, x), ..st }, per_line);
            } else {
                lemma_body_last(ls, i + 1, Layout { em: emit_verbatim(st.em, l), ..st }, per_line);
            }
        } else if is_blank(l) {
            lemma_body_last(ls, i + 1, Layout { em: emit_blank(st.em), ..st }, per_line);
        } else if is_tag(l) {
            lemma_body_last(ls, i + 1, Layout { tags: st.tags.push(trim(l)), ..st }, per_line);
        } else if is_table(l) {
            let j = table_end(ls, i);
            lemma_table_end(ls, i + 1);
            let ind = crate::formatter::table_indent(st, l);
            let f = flush(st.em, st.tags, ind, per_line);
            lemma_flush_body(st.em, st.tags, ind, per_line);
            let rows = table_rows(ls.subrange(i, j), ind);
            assert(rows.len() > 0);
            lemma_emit_all_body(f, rows);
            lemma_body_last(ls, j, Layout { tags: Seq::empty(), em: emit_all(f, rows), ..st }, per_line);
        } else {
            let ind = if is_docstring_marker(l) {
                indent(st.depth + 1)
            } else {
                indent(crate::formatter::line_depth(st, l))
            };
            let f = flush(st.em, st.tags, ind, per_line);
            lemma_flush_body(st.em, st.tags, ind, per_line);
            let em = emit_line(f, ind + trim(l));
            let s1 = if is_docstring_marker(l) {
                Layout { tags: Seq::empty(), in_doc: true, em, ..st }
            } else {
                crate::formatter::after_header(Layout { tags: Seq::empty(), em, ..st }, l)
            };
            assert(s1.em == em);
            lemma_body_last(ls, i + 1, s1, per_line);
        }
    }
}

proof fn lemma_emit_all_body(e: Emit, rows: Seq<Seq<char>>)
    requires
        e.lines.len() == e.body.len(),
    ensures
        emit_all(e, rows).lines.len() == emit_all(e, rows).body.len(),
        rows.len() > 0 ==> !emit_all(e, rows).body.last(),
    decreases rows.len(),
{
    if rows.len() > 0 {
        lemma_emit_all_body(e, rows.drop_last());
    }
}

proof fn lemma_flush_body(e: Emit, tags: Seq<Seq<char>>, ind: Seq<char>, per_line: bool)
    requires
        e.lines.len() == e.body.len(),
    ensures
        flush(e, tags, ind, per_line).lines.len() == flush(e, tags, ind, per_line).body.len(),
        tags.len() > 0 && per_line && all_words(tags).len() > 0 ==> !flush(e, tags, ind, per_line).body.last(),
        tags.len() > 0 && !per_line ==> !flush(e, tags, ind, per_line).body.last(),
{
    if tags.len() > 0 && per_line {
        lemma_emit_all_body(e, prefix_each(ind, all_words(tags)));
    }
}

/// Formatting is idempotent: formatting the output once more gives it
/// back. This holds when every doc-string is closed, and, with one tag per
/// line, when each tag word that is no tag (the `b` of `@a b`, which lands
/// on a line of its own) is emitted at the depth that free text takes there
/// and reads as free text, not as a header, table row or doc-string marker
/// (`flushes_ok`).
pub proof fn law_format_idempotent(input: Seq<char>, per_line: bool)
    requires
        !layout_from(input_lines(input), 0, layout_new(), per_line).in_doc,
        per_line ==> flushes_ok(input_lines(input), 0, layout_new(), per_line),
    ensures
        formatted(formatted(input, per_line), per_line) == formatted(input, per_line),
{
    let ls = input_lines(input);
    let st0 = layout_new();
    let e = layout(input, per_line);
    let out = e.lines;
    assert(all_words(Seq::<Seq<char>>::empty()) =~= Seq::<Seq<char>>::empty());
    assert(out == finish(ls, 0, st0, per_line).lines);
    lemma_twice(ls, 0, st0, per_line, out);
    assert(sync(st0) == st0);
    if out.len() == 0 {
        assert(join(out, seq!['\n']) =~= Seq::<char>::empty());
        let r = formatted(input, per_line);
        assert(r == seq!['\n']);
        assert(r.drop_last() =~= Seq::<char>::empty());
        assert(split_char(Seq::<char>::empty(), '\n') == seq![Seq::<char>::empty()]);
        assert(split_char(r, '\n') == seq![Seq::<char>::empty()].push(Seq::<char>::empty()));
        let ls2 = input_lines(r);
        assert(ls2 =~= seq![Seq::<char>::empty()]);
        lemma_blank_not_table();
        assert(layout_from(ls2, 0, st0, per_line) == layout_from(ls2, 1, st0, per_line));
        assert(layout(r, per_line) == st0.em);
    } else {
        lemma_layout_lines_no_nl(input, per_line);
        law_blank_lines_collapsed(input, per_line);
        let s = layout_from(ls, 0, st0, per_line);
        lemma_body_last(ls, 0, st0, per_line);
        lemma_flush_body(s.em, s.tags, indent(s.depth), per_line);
        assert(layout_ok(st0));
        lemma_layout_ok(ls, 0, st0, per_line);
        if s.tags.len() > 0 && per_line {
            lemma_all_words_some(s.tags);
        }
        assert(!e.body.last());
        lemma_render_lines(out);
    }
}

// ---------- re-splitting rendered rows ----------

/// Scanning `s[i..end]` as the cell splitter does (a backslash takes the
/// next character with it) meets no unescaped pipe and stops exactly at
/// `end`.
pub open spec fn plain_from(s: Seq<char>, i: int, end: int) -> bool
    decreases end - i,
{
    if i < 0 || i > end || end > s.len() {
        false
    } else if i == end {
        true
    } else if s[i] == '\\' && i + 1 < s.len() {
        if i + 2 > end {
            false
        } else {
            plain_from(s, i + 2, end)
        }
    } else if s[i] == '|' {
        false
    } else {
        plain_from(s, i + 1, end)
    }
}

/// A cell as the splitter produces it: no unescaped pipe, no surrounding
/// whitespace.
pub open spec fn cell_ok(c: Seq<char>) -> bool {
    plain_from(c, 0, c.len() as int) && trim(c) == c
}

proof fn lemma_plain_split(s: Seq<char>, i: int, end: int, cells: Seq<Seq<char>>, buf: Seq<char>)
    requires
        plain_from(s, i, end),
    ensures
        split_cells_from(s, i, cells, buf) == split_cells_from(s, end, cells, buf + s.subrange(i, end)),
    decreases end - i,
{
    if i == end {
        assert(buf + s.subrange(i, end) =~= buf);
    } else if s[i] == '\\' && i + 1 < s.len() {
        let b2 = buf.push('\\').push(s[i + 1]);
        lemma_plain_split(s, i + 2, end, cells, b2);
        assert(b2 + s.subrange(i + 2, end) =~= buf + s.subrange(i, end));
    } else {
        let b2 = buf.push(s[i]);
        lemma_plain_split(s, i + 1, end, cells, b2);
        assert(b2 + s.subrange(i + 1, end) =~= buf + s.subrange(i, end));
    }
}

proof fn lemma_plain_spaces(s: Seq<char>, i: int, e: int)
    requires
        0 <= i <= e <= s.len(),
        forall|k: int| i <= k < e ==> #[trigger] s[k] == ' ',
    ensures
        plain_from(s, i, e),
    decreases e - i,
{
    if i < e {
        assert(s[i] == ' ');
        lemma_plain_spaces(s, i + 1, e);
    }
}

proof fn lemma_plain_join(s: Seq<char>, a: int, b: int, c: int)
    requires
        plain_from(s, a, b),
        plain_from(s, b, c),
    ensures
        plain_from(s, a, c),
    decreases b - a,
{
    if a < b {
        if s[a] == '\\' && a + 1 < s.len() {
            lemma_plain_join(s, a + 2, b, c);
        } else {
            lemma_plain_join(s, a + 1, b, c);
        }
    }
}

/// A cell whose scan succeeds on its own still scans cleanly inside a text
/// where only spaces follow it.
proof fn lemma_plain_embed(c: Seq<char>, j: int, s: Seq<char>, a: int, e: int)
    requires
        0 <= j <= c.len(),
        plain_from(c, j, c.len() as int),
        0 <= a,
        a + c.len() < e <= s.len(),
        s.subrange(a, a + c.len()) == c,
        forall|k: int| a + c.len() <= k < e ==> #[trigger] s[k] == ' ',
    ensures
        plain_from(s, a + j, e),
    decreases c.len() - j,
{
    if j == c.len() {
        lemma_plain_spaces(s, a + j, e);
    } else {
        assert(s[a + j] == s.subrange(a, a + c.len())[j]);
        if c[j] == '\\' && j + 1 < c.len() {
            lemma_plain_embed(c, j + 2, s, a, e);
        } else if c[j] == '\\' {
            assert(j + 1 == c.len());
            lemma_plain_spaces(s, a + j + 2, e);
        } else {
            lemma_plain_embed(c, j + 1, s, a, e);
        }
    }
}

proof fn lemma_plain_sub(s: Seq<char>, st: int, k: int, en: int)
    requires
        0 <= st <= k <= en <= s.len(),
        plain_from(s, k, en),
    ensures
        plain_from(s.subrange(st, en), k - st, en - st),
    decreases en - k,
{
    let sub = s.subrange(st, en);
    if k < en {
        assert(sub[k - st] == s[k]);
        if s[k] == '\\' && k + 1 < s.len() {
            lemma_plain_sub(s, st, k + 2, en);
        } else {
            lemma_plain_sub(s, st, k + 1, en);
        }
    }
}

proof fn lemma_plain_take(c: Seq<char>, j: int, m: int)
    requires
        0 <= j <= m <= c.len(),
        plain_from(c, j, c.len() as int),
    ensures
        plain_from(c.take(m), j, m),
    decreases c.len() - j,
{
    let t = c.take(m);
    if j < m {
        assert(t[j] == c[j]);
        if c[j] == '\\' && j + 1 < c.len() {
            if j + 1 < m {
                assert(t[j + 1] == c[j + 1]);
                lemma_plain_take(c, j + 2, m);
            } else {
                assert(plain_from(t, m, m));
            }
        } else {
            assert(plain_from(c, j + 1, c.len() as int));
            lemma_plain_take(c, j + 1, m);
        }
    }
}

proof fn lemma_plain_skip_ws(c: Seq<char>, i: int, k: int)
    requires
        0 <= i <= k <= c.len(),
        plain_from(c, i, c.len() as int),
        forall|m: int| i <= m < k ==> is_ws(#[trigger] c[m]),
    ensures
        plain_from(c, k, c.len() as int),
    decreases k - i,
{
    if i < k {
        assert(is_ws(c[i]));
        lemma_plain_skip_ws(c, i + 1, k);
    }
}

proof fn lemma_plain_trim(c: Seq<char>)
    requires
        plain_from(c, 0, c.len() as int),
    ensures
        plain_from(trim(c), 0, trim(c).len() as int),
{
    let k = skip_ws(c, 0);
    lemma_skip_ws(c, 0);
    lemma_plain_skip_ws(c, 0, k);
    lemma_plain_sub(c, k, k, c.len() as int);
    let t = trim_start(c);
    assert(t =~= c.subrange(k, c.len() as int));
    let e = trail_end(t, t.len() as int);
    lemma_trail_end(t, t.len() as int);
    lemma_plain_take(t, 0, e);
}

proof fn lemma_skip_ws_exact(s: Seq<char>, i: int, j: int)
    requires
        0 <= i <= j <= s.len(),
        forall|k: int| i <= k < j ==> is_ws(#[trigger] s[k]),
        j < s.len() ==> !is_ws(s[j]),
    ensures
        skip_ws(s, i) == j,
    decreases j - i,
{
    if i < j {
        assert(is_ws(s[i]));
        lemma_skip_ws_exact(s, i + 1, j);
    }
}

proof fn lemma_trail_end_exact(s: Seq<char>, i: int, j: int)
    requires
        0 <= j <= i <= s.len(),
        forall|k: int| j <= k < i ==> is_ws(#[trigger] s[k]),
        j > 0 ==> !is_ws(s[j - 1]),
    ensures
        trail_end(s, i) == j,
    decreases i - j,
{
    if j < i {
        assert(is_ws(s[i - 1]));
        lemma_trail_end_exact(s, i - 1, j);
    }
}

/// A trimmed text neither starts nor ends with whitespace.
proof fn lemma_trim_ends(x: Seq<char>)
    ensures
        trim(x).len() > 0 ==> !is_ws(trim(x)[0]) && !is_ws(trim(x).last()),
{
    lemma_skip_ws(x, 0);
    let t = trim_start(x);
    lemma_trail_end(t, t.len() as int);
    let e = trail_end(t, t.len() as int);
    if e > 0 {
        assert(t.len() > 0);
        assert(t[0] == x[skip_ws(x, 0)]);
        assert(trim(x)[0] == t[0]);
        assert(trim(x).last() == t[e - 1]);
    }
}

/// Surrounding whitespace is trimmed away from a text that has none of its
/// own at either end.
proof fn lemma_trim_padded(w1: Seq<char>, c: Seq<char>, w2: Seq<char>)
    requires
        forall|k: int| 0 <= k < w1.len() ==> is_ws(#[trigger] w1[k]),
        forall|k: int| 0 <= k < w2.len() ==> is_ws(#[trigger] w2[k]),
        c.len() > 0 ==> !is_ws(c[0]) && !is_ws(c.last()),
    ensures
        trim(w1 + c + w2) == c,
{
    let s = w1 + c + w2;
    let n1 = w1.len() as int;
    if c.len() > 0 {
        assert forall|k: int| 0 <= k < n1 implies is_ws(#[trigger] s[k]) by {
            assert(s[k] == w1[k]);
        }
        assert(s[n1] == c[0]);
        lemma_skip_ws_exact(s, 0, n1);
        let t = trim_start(s);
        assert(t =~= c + w2);
        assert forall|k: int| c.len() <= k < t.len() implies is_ws(#[trigger] t[k]) by {
            assert(t[k] == w2[k - c.len()]);
        }
        assert(t[c.len() - 1] == c.last());
        lemma_trail_end_exact(t, t.len() as int, c.len() as int);
        assert(trim(s) =~= c);
    } else {
        assert forall|k: int| 0 <= k < s.len() implies is_ws(#[trigger] s[k]) by {
            if k < n1 {
                assert(s[k] == w1[k]);
            } else {
                assert(s[k] == w2[k - n1]);
            }
        }
        lemma_skip_ws_exact(s, 0, s.len() as int);
        assert(trim_start(s) =~= Seq::<char>::empty());
        assert(trim(s) =~= c);
    }
}

proof fn lemma_trim_idem(x: Seq<char>)
    ensures
        trim(trim(x)) == trim(x),
{
    lemma_trim_ends(x);
    lemma_trim_padded(Seq::empty(), trim(x), Seq::empty());
    assert(Seq::<char>::empty() + trim(x) + Seq::<char>::empty() =~= trim(x));
}

proof fn lemma_cell_ok_of(s: Seq<char>, st: int, i: int)
    requires
        0 <= st <= i <= s.len(),
        plain_from(s, st, i),
    ensures
        cell_ok(trim(s.subrange(st, i))),
{
    let buf = s.subrange(st, i);
    lemma_plain_sub(s, st, st, i);
    lemma_plain_trim(buf);
    lemma_trim_idem(buf);
}

/// Every cell of a split is as the splitter produces it.
proof fn lemma_split_cells_ok(s: Seq<char>, i: int, st: int, cells: Seq<Seq<char>>, buf: Seq<char>)
    requires
        0 <= st <= i <= s.len(),
        buf == s.subrange(st, i),
        plain_from(s, st, i),
        forall|k: int| 0 <= k < cells.len() ==> cell_ok(#[trigger] cells[k]),
    ensures
        forall|k: int|
            0 <= k < split_cells_from(s, i, cells, buf).len() ==> cell_ok(
                #[trigger] split_cells_from(s, i, cells, buf)[k],
            ),
    decreases s.len() - i,
{
    if i >= s.len() {
        lemma_cell_ok_of(s, st, i);
        let cs = cells.push(trim(buf));
        assert(split_cells_from(s, i, cells, buf) == cs);
        assert forall|k: int| 0 <= k < cs.len() implies cell_ok(#[trigger] cs[k]) by {
            if k < cells.len() {
                assert(cs[k] == cells[k]);
            }
        }
    } else if s[i] == '\\' && i + 1 < s.len() {
        assert(plain_from(s, i + 2, i + 2));
        assert(plain_from(s, i, i + 2));
        lemma_plain_join(s, st, i, i + 2);
        let b2 = buf.push('\\').push(s[i + 1]);
        assert(b2 =~= s.subrange(st, i + 2));
        lemma_split_cells_ok(s, i + 2, st, cells, b2);
        assert(split_cells_from(s, i, cells, buf) == split_cells_from(s, i + 2, cells, b2));
    } else if s[i] == '|' {
        lemma_cell_ok_of(s, st, i);
        let cs = cells.push(trim(buf));
        assert forall|k: int| 0 <= k < cs.len() implies cell_ok(#[trigger] cs[k]) by {
            if k < cells.len() {
                assert(cs[k] == cells[k]);
            }
        }
        assert(Seq::<char>::empty() =~= s.subrange(i + 1, i + 1));
        assert(plain_from(s, i + 1, i + 1));
        lemma_split_cells_ok(s, i + 1, i + 1, cs, Seq::empty());
        assert(split_cells_from(s, i, cells, buf) == split_cells_from(s, i + 1, cs, Seq::empty()));
    } else {
        assert(plain_from(s, i + 1, i + 1));
        assert(plain_from(s, i, i + 1));
        lemma_plain_join(s, st, i, i + 1);
        let b2 = buf.push(s[i]);
        assert(b2 =~= s.subrange(st, i + 1));
        lemma_split_cells_ok(s, i + 1, st, cells, b2);
        assert(split_cells_from(s, i, cells, buf) == split_cells_from(s, i + 1, cells, b2));
    }
}

proof fn lemma_row_cells_ok(l: Seq<char>)
    ensures
        forall|k: int| 0 <= k < row_cells(l).len() ==> cell_ok(#[trigger] row_cells(l)[k]),
{
    let s = cell_region(l);
    assert(Seq::<char>::empty() == s.subrange(0, 0));
    lemma_split_cells_ok(s, 0, 0, Seq::empty(), Seq::empty());
}

/// The characters of cell `k` of a rendered row: its aligned segment.
proof fn lemma_seg_at(cells: Seq<Seq<char>>, ws: Seq<nat>, nums: Seq<bool>, k: int, n: int)
    requires
        0 <= k < n <= cells.len(),
        n <= ws.len(),
        forall|j: int| 0 <= j < n ==> (#[trigger] cells[j]).len() <= ws[j],
    ensures
        pipe_column(0, ws, k + 1) == pipe_column(0, ws, k) + ws[k] + 3,
        pipe_column(0, ws, k + 1) <= segs(cells, ws, nums, n).len(),
        segs(cells, ws, nums, n).subrange(pipe_column(0, ws, k), pipe_column(0, ws, k + 1))
            == cell_seg(cells[k], ws[k], nums[k]),
{
    lemma_segs(cells, ws, nums, k, n);
    lemma_segs(cells, ws, nums, k + 1, n);
    lemma_segs(cells, ws, nums, n, n);
    lemma_pipe_column_mono(ws, k + 1, n);
    let all = segs(cells, ws, nums, n);
    let sk = segs(cells, ws, nums, k);
    let sk1 = segs(cells, ws, nums, k + 1);
    let seg = cell_seg(cells[k], ws[k], nums[k]);
    assert(sk1 == sk + seg);
    assert(all.take(sk1.len() as int) == sk1);
    assert forall|i: int| 0 <= i < seg.len() implies all[sk.len() + i] == seg[i] by {
        assert(all.take(sk1.len() as int)[sk.len() + i] == sk1[sk.len() + i]);
    }
    assert(all.subrange(sk.len() as int, sk1.len() as int) =~= seg);
}

/// The text of cell `k` inside a rendered row (without its outer pipes):
/// from the pipe before it, a clean scan to the pipe after it (or the end),
/// whose text trims to the cell.
proof fn lemma_seg_body(r: Seq<char>, cells: Seq<Seq<char>>, ws: Seq<nat>, nums: Seq<bool>, k: int)
    requires
        0 <= k < cells.len(),
        cells.len() <= ws.len(),
        cells.len() <= nums.len(),
        forall|j: int| 0 <= j < cells.len() ==> (#[trigger] cells[j]).len() <= ws[j],
        cell_ok(cells[k]),
        r == segs(cells, ws, nums, cells.len() as int).drop_last(),
    ensures
        ({
            let o = pipe_column(0, ws, k);
            let e = pipe_column(0, ws, k + 1) - 1;
            &&& 0 <= o < e <= r.len()
            &&& plain_from(r, o, e)
            &&& trim(r.subrange(o, e)) == cells[k]
            &&& k + 1 < cells.len() ==> e < r.len() && r[e] == '|'
            &&& k + 1 == cells.len() ==> e == r.len()
        }),
{
    let n = cells.len() as int;
    let all = segs(cells, ws, nums, n);
    lemma_seg_at(cells, ws, nums, k, n);
    lemma_segs(cells, ws, nums, n, n);
    lemma_pipe_column_mono(ws, 0, k);
    let o = pipe_column(0, ws, k);
    let o1 = pipe_column(0, ws, k + 1);
    let c = cells[k];
    let w = ws[k] as int;
    let seg = cell_seg(c, ws[k], nums[k]);
    let e = o1 - 1;
    assert(r.len() == all.len() - 1);
    assert(seg.len() == w + 3);
    let body = r.subrange(o, e);
    assert(body =~= seg.drop_last()) by {
        assert forall|i: int| 0 <= i < body.len() implies body[i] == seg[i] by {
            assert(body[i] == all[o + i]);
            assert(all.subrange(o, o1)[i] == all[o + i]);
        }
    }
    let pre = (if nums[k] { w - c.len() + 1 } else { 1 }) as nat;
    let post = (w + 2 - c.len() - pre) as nat;
    assert(body =~= spaces(pre) + c + spaces(post));
    assert forall|i: int| o <= i < o + pre implies #[trigger] r[i] == ' ' by {
        assert(r[i] == body[i - o]);
    }
    assert forall|i: int| o + pre + c.len() <= i < e implies #[trigger] r[i] == ' ' by {
        assert(r[i] == body[i - o]);
    }
    assert(r.subrange(o + pre, o + pre + c.len()) =~= c) by {
        assert forall|i: int| 0 <= i < c.len() implies r.subrange(o + pre, o + pre + c.len())[i]
            == c[i] by {
            assert(r[o + pre + i] == body[pre + i]);
        }
    }
    lemma_plain_spaces(r, o, o + pre);
    lemma_plain_embed(c, 0, r, o + pre, e);
    lemma_plain_join(r, o, o + pre, e);
    lemma_trim_ends(c);
    lemma_trim_padded(spaces(pre), c, spaces(post));
    if k + 1 < n {
        lemma_seg_at(cells, ws, nums, k + 1, n);
        assert(r[e] == '|') by {
            assert(r[e] == all[e]);
            assert(all.subrange(o, o1)[e - o] == all[e]);
        }
    }
}

/// Splitting the inside of a rendered row from the start of cell `k` gives
/// back the remaining cells.
proof fn lemma_split_rendered(
    r: Seq<char>,
    cells: Seq<Seq<char>>,
    ws: Seq<nat>,
    nums: Seq<bool>,
    k: int,
)
    requires
        0 <= k < cells.len(),
        cells.len() <= ws.len(),
        cells.len() <= nums.len(),
        forall|j: int| 0 <= j < cells.len() ==> (#[trigger] cells[j]).len() <= ws[j],
        forall|j: int| 0 <= j < cells.len() ==> cell_ok(#[trigger] cells[j]),
        r == segs(cells, ws, nums, cells.len() as int).drop_last(),
    ensures
        split_cells_from(r, pipe_column(0, ws, k), cells.take(k), Seq::empty()) == cells,
    decreases cells.len() - k,
{
    let n = cells.len() as int;
    lemma_seg_body(r, cells, ws, nums, k);
    let o = pipe_column(0, ws, k);
    let e = pipe_column(0, ws, k + 1) - 1;
    lemma_plain_split(r, o, e, cells.take(k), Seq::empty());
    let body = r.subrange(o, e);
    assert(Seq::<char>::empty() + body =~= body);
    assert(cells.take(k).push(cells[k]) =~= cells.take(k + 1));
    assert(split_cells_from(r, o, cells.take(k), Seq::empty()) == split_cells_from(
        r,
        e,
        cells.take(k),
        body,
    ));
    if k + 1 < n {
        lemma_split_rendered(r, cells, ws, nums, k + 1);
        assert(cells.take(k).push(trim(body)) == cells.take(k + 1));
        assert(split_cells_from(r, e, cells.take(k), body) == split_cells_from(
            r,
            e + 1,
            cells.take(k + 1),
            Seq::empty(),
        ));
    } else {
        assert(cells.take(n) =~= cells);
        assert(split_cells_from(r, e, cells.take(k), body) == cells.take(k).push(trim(body)));
    }
}

/// A rendered row splits back into the cells it was rendered from.
proof fn lemma_render_split(ind: Seq<char>, cells: Seq<Seq<char>>, ws: Seq<nat>, nums: Seq<bool>)
    requires
        cells.len() >= 1,
        cells.len() <= ws.len(),
        cells.len() <= nums.len(),
        forall|j: int| 0 <= j < cells.len() ==> (#[trigger] cells[j]).len() <= ws[j],
        forall|j: int| 0 <= j < cells.len() ==> cell_ok(#[trigger] cells[j]),
        forall|k: int| 0 <= k < ind.len() ==> is_ws(#[trigger] ind[k]),
    ensures
        row_cells(render_row(ind, cells, ws, nums)) == cells,
{
    let n = cells.len() as int;
    let all = segs(cells, ws, nums, n);
    lemma_seg_at(cells, ws, nums, n - 1, n);
    lemma_segs(cells, ws, nums, n, n);
    lemma_pipe_column_mono(ws, 0, n - 1);
    let row = render_row(ind, cells, ws, nums);
    assert(row == ind + seq!['|'] + all);
    let m = ind.len() as int;
    assert forall|k: int| 0 <= k < m implies is_ws(#[trigger] row[k]) by {
        assert(row[k] == ind[k]);
    }
    assert(row[m] == '|');
    assert(!is_ws('|'));
    lemma_skip_ws_exact(row, 0, m);
    let t = trim_start(row);
    assert(t =~= seq!['|'] + all);
    assert(all.len() >= 3);
    assert(t.last() == '|');
    lemma_trail_end_exact(t, t.len() as int, t.len() as int);
    assert(trim(row) =~= t);
    let r = t.subrange(1, t.len() - 1);
    assert(cell_region(row) == r);
    assert(r =~= all.drop_last());
    lemma_split_rendered(r, cells, ws, nums, 0);
    assert(cells.take(0) =~= Seq::<Seq<char>>::empty());
}

/// Aligning a table changes no cell: every rendered row starts with the
/// indent and a pipe, ends with a pipe, and splits back into the cells of
/// its source row (for an indent made of whitespace).
pub proof fn law_table_rows_split_back(rows: Seq<Seq<char>>, ind: Seq<char>)
    requires
        forall|k: int| 0 <= k < ind.len() ==> is_ws(#[trigger] ind[k]),
    ensures
        table_rows(rows, ind).len() == rows.len(),
        forall|r: int|
            0 <= r < rows.len() ==> {
                let out = #[trigger] table_rows(rows, ind)[r];
                &&& has_prefix(out, ind + seq!['|'])
                &&& out.last() == '|'
                &&& row_cells(out) == row_cells(rows[r])
            },
{
    let p = parse_rows(rows);
    let ws = widths(p);
    let nums = numerics(p);
    lemma_max_cols(p);
    assert forall|r: int| 0 <= r < rows.len() implies {
        let out = #[trigger] table_rows(rows, ind)[r];
        &&& has_prefix(out, ind + seq!['|'])
        &&& out.last() == '|'
        &&& row_cells(out) == row_cells(rows[r])
    } by {
        let cells = p[r];
        assert(cells == row_cells(rows[r]));
        lemma_split_cells_len(cell_region(rows[r]), 0, Seq::empty(), Seq::empty());
        assert forall|j: int| 0 <= j < cells.len() implies (#[trigger] cells[j]).len() <= ws[j] by {
            lemma_col_width(p, j);
        }
        lemma_row_cells_ok(rows[r]);
        lemma_render_split(ind, cells, ws, nums);
        let n = cells.len() as int;
        lemma_segs(cells, ws, nums, n, n);
        lemma_seg_at(cells, ws, nums, n - 1, n);
        lemma_pipe_column_mono(ws, 0, n - 1);
        let out = table_rows(rows, ind)[r];
        let all = segs(cells, ws, nums, n);
        assert(out == ind + seq!['|'] + all);
        assert(out.take((ind.len() + 1) as int) =~= ind + seq!['|']);
        assert(out.last() == all.last());
    }
}

/// Splitting `| c1 | c2 | … |` gives back `c1, c2, …` when no cell has a
/// pipe, a backslash, or whitespace at either end.
pub proof fn law_split_cells_round_trip(cells: Seq<Seq<char>>)
    requires
        cells.len() >= 1,
        forall|j: int|
            0 <= j < cells.len() ==> trim(#[trigger] cells[j]) == cells[j] && !cells[j].contains('|')
                && !cells[j].contains('\\'),
    ensures
        row_cells(seq!['|', ' '] + join(cells, seq![' ', '|', ' ']) + seq![' ', '|']) == cells,
{
    let n = cells.len() as int;
    let ws = Seq::new(n as nat, |j: int| cells[j].len());
    let nums = Seq::new(n as nat, |j: int| false);
    assert forall|j: int| 0 <= j < n implies cell_ok(#[trigger] cells[j]) by {
        lemma_plain_no_escape(cells[j], 0);
    }
    lemma_join_segs(cells, ws, nums, n);
    assert(cells.take(n) =~= cells);
    assert(render_row(Seq::empty(), cells, ws, nums) =~= seq!['|'] + segs(cells, ws, nums, n));
    assert(render_row(Seq::empty(), cells, ws, nums) =~= seq!['|', ' '] + join(cells, seq![' ', '|', ' '])
        + seq![' ', '|']);
    lemma_render_split(Seq::empty(), cells, ws, nums);
}

proof fn lemma_plain_no_escape(c: Seq<char>, i: int)
    requires
        0 <= i <= c.len(),
        !c.contains('|'),
        !c.contains('\\'),
    ensures
        plain_from(c, i, c.len() as int),
    decreases c.len() - i,
{
    if i < c.len() {
        if c[i] == '|' || c[i] == '\\' {
            assert(c.contains(c[i]));
        }
        lemma_plain_no_escape(c, i + 1);
    }
}

/// Cells rendered at their own widths, left-aligned, are the cells joined
/// with ` | ` between pipes.
proof fn lemma_join_segs(cells: Seq<Seq<char>>, ws: Seq<nat>, nums: Seq<bool>, k: int)
    requires
        1 <= k <= cells.len(),
        ws.len() == cells.len(),
        nums.len() == cells.len(),
        forall|j: int| 0 <= j < cells.len() ==> #[trigger] ws[j] == cells[j].len(),
        forall|j: int| 0 <= j < cells.len() ==> !(#[trigger] nums[j]),
    ensures
        seq!['|'] + segs(cells, ws, nums, k) == seq!['|', ' '] + join(cells.take(k), seq![' ', '|', ' '])
            + seq![' ', '|'],
    decreases k,
{
    let c = cells[k - 1];
    let seg = cell_seg(c, ws[k - 1], nums[k - 1]);
    assert(spaces(0) =~= Seq::<char>::empty());
    assert(seg =~= seq![' '] + c + seq![' ', '|']);
    let sep = seq![' ', '|', ' '];
    let tk = cells.take(k);
    assert(segs(cells, ws, nums, k) == segs(cells, ws, nums, k - 1) + seg);
    if k == 1 {
        assert(segs(cells, ws, nums, 0) =~= Seq::<char>::empty());
        assert(join(tk, sep) == tk[0]);
        assert(seq!['|'] + segs(cells, ws, nums, 1) =~= seq!['|', ' '] + join(tk, sep) + seq![' ', '|']);
    } else {
        lemma_join_segs(cells, ws, nums, k - 1);
        assert(tk.drop_last() =~= cells.take(k - 1));
        assert(tk.last() == c);
        assert(join(tk, sep) == join(cells.take(k - 1), sep) + sep + c);
        let prev = join(cells.take(k - 1), sep);
        let x = seq!['|', ' '] + prev + seq![' ', '|'];
        assert(seq!['|'] + segs(cells, ws, nums, k - 1) == x);
        assert(seq!['|'] + segs(cells, ws, nums, k) =~= (seq!['|'] + segs(cells, ws, nums, k - 1))
            + seg);
        assert(x + seg =~= seq!['|', ' '] + (prev + sep + c) + seq![' ', '|']);
    }
}

// ---------- the index ----------

/// After `drop_file(p)` no step definition or step call of the file `p`
/// remains, and every entry of another file is kept.
pub proof fn law_drop_file_removes_exactly(v: IndexView, p: Seq<char>)
    ensures
        forall|k: int|
            0 <= k < after_drop(v, p).defs.len() ==> !paths_equal(
                (#[trigger] after_drop(v, p).defs[k]).path,
                p,
            ),
        forall|k: int|
            0 <= k < after_drop(v, p).calls.len() ==> !paths_equal(
                (#[trigger] after_drop(v, p).calls[k]).path,
                p,
            ),
        (forall|k: int| 0 <= k < v.defs.len() ==> !paths_equal((#[trigger] v.defs[k]).path, p))
            ==> after_drop(v, p).defs == v.defs,
        (forall|k: int| 0 <= k < v.calls.len() ==> !paths_equal((#[trigger] v.calls[k]).path, p))
            ==> after_drop(v, p).calls == v.calls,
{
    lemma_defs_elsewhere(v.defs, p);
    lemma_calls_elsewhere(v.calls, p);
}

proof fn lemma_defs_elsewhere(ds: Seq<DefView>, p: Seq<char>)
    ensures
        forall|k: int|
            0 <= k < defs_elsewhere(ds, p).len() ==> !paths_equal(
                (#[trigger] defs_elsewhere(ds, p)[k]).path,
                p,
            ),
        (forall|k: int| 0 <= k < ds.len() ==> !paths_equal((#[trigger] ds[k]).path, p))
            ==> defs_elsewhere(ds, p) == ds,
        (forall|k: int| 0 <= k < ds.len() ==> (#[trigger] ds[k]).path == p) && paths_equal(p, p)
            ==> defs_elsewhere(ds, p).len() == 0,
    decreases ds.len(),
{
    if ds.len() > 0 {
        lemma_defs_elsewhere(ds.drop_last(), p);
        let prev = defs_elsewhere(ds.drop_last(), p);
        assert forall|k: int| 0 <= k < defs_elsewhere(ds, p).len() implies !paths_equal(
            (#[trigger] defs_elsewhere(ds, p)[k]).path,
            p,
        ) by {
            if k < prev.len() {
                assert(defs_elsewhere(ds, p)[k] == prev[k]);
            }
        }
        if forall|k: int| 0 <= k < ds.len() ==> !paths_equal((#[trigger] ds[k]).path, p) {
            assert forall|k: int| 0 <= k < ds.drop_last().len() implies !paths_equal(
                (#[trigger] ds.drop_last()[k]).path,
                p,
            ) by {
                assert(ds.drop_last()[k] == ds[k]);
            }
            assert(ds.last() == ds[ds.len() - 1]);
            assert(ds.drop_last().push(ds.last()) =~= ds);
        }
        if (forall|k: int| 0 <= k < ds.len() ==> (#[trigger] ds[k]).path == p) && paths_equal(p, p) {
            assert forall|k: int| 0 <= k < ds.drop_last().len() implies (#[trigger] ds.drop_last()[k]).path
                == p by {
                assert(ds.drop_last()[k] == ds[k]);
            }
            assert(ds.last() == ds[ds.len() - 1]);
        }
    }
}

proof fn lemma_calls_elsewhere(cs: Seq<CallView>, p: Seq<char>)
    ensures
        forall|k: int|
            0 <= k < calls_elsewhere(cs, p).len() ==> !paths_equal(
                (#[trigger] calls_elsewhere(cs, p)[k]).path,
                p,
            ),
        (forall|k: int| 0 <= k < cs.len() ==> !paths_equal((#[trigger] cs[k]).path, p))
            ==> calls_elsewhere(cs, p) == cs,
        (forall|k: int| 0 <= k < cs.len() ==> (#[trigger] cs[k]).path == p) && paths_equal(p, p)
            ==> calls_elsewhere(cs, p).len() == 0,
    decreases cs.len(),
{
    if cs.len() > 0 {
        lemma_calls_elsewhere(cs.drop_last(), p);
        let prev = calls_elsewhere(cs.drop_last(), p);
        assert forall|k: int| 0 <= k < calls_elsewhere(cs, p).len() implies !paths_equal(
            (#[trigger] calls_elsewhere(cs, p)[k]).path,
            p,
        ) by {
            if k < prev.len() {
                assert(calls_elsewhere(cs, p)[k] == prev[k]);
            }
        }
        if forall|k: int| 0 <= k < cs.len() ==> !paths_equal((#[trigger] cs[k]).path, p) {
            assert forall|k: int| 0 <= k < cs.drop_last().len() implies !paths_equal(
                (#[trigger] cs.drop_last()[k]).path,
                p,
            ) by {
                assert(cs.drop_last()[k] == cs[k]);
            }
            assert(cs.last() == cs[cs.len() - 1]);
            assert(cs.drop_last().push(cs.last()) =~= cs);
        }
        if (forall|k: int| 0 <= k < cs.len() ==> (#[trigger] cs[k]).path == p) && paths_equal(p, p) {
            assert forall|k: int| 0 <= k < cs.drop_last().len() implies (#[trigger] cs.drop_last()[k]).path
                == p by {
                assert(cs.drop_last()[k] == cs[k]);
            }
            assert(cs.last() == cs[cs.len() - 1]);
        }
    }
}

proof fn lemma_defs_elsewhere_concat(a: Seq<DefView>, b: Seq<DefView>, p: Seq<char>)
    ensures
        defs_elsewhere(a + b, p) == defs_elsewhere(a, p) + defs_elsewhere(b, p),
    decreases b.len(),
{
    if b.len() == 0 {
        assert(a + b =~= a);
        assert(defs_elsewhere(a, p) + Seq::<DefView>::empty() =~= defs_elsewhere(a, p));
    } else {
        lemma_defs_elsewhere_concat(a, b.drop_last(), p);
        assert((a + b).drop_last() =~= a + b.drop_last());
        assert((a + b).last() == b.last());
        if !paths_equal(b.last().path, p) {
            assert(defs_elsewhere(a, p) + defs_elsewhere(b.drop_last(), p).push(b.last())
                =~= (defs_elsewhere(a, p) + defs_elsewhere(b.drop_last(), p)).push(b.last()));
        }
    }
}

proof fn lemma_calls_elsewhere_concat(a: Seq<CallView>, b: Seq<CallView>, p: Seq<char>)
    ensures
        calls_elsewhere(a + b, p) == calls_elsewhere(a, p) + calls_elsewhere(b, p),
    decreases b.len(),
{
    if b.len() == 0 {
        assert(a + b =~= a);
        assert(calls_elsewhere(a, p) + Seq::<CallView>::empty() =~= calls_elsewhere(a, p));
    } else {
        lemma_calls_elsewhere_concat(a, b.drop_last(), p);
        assert((a + b).drop_last() =~= a + b.drop_last());
        assert((a + b).last() == b.last());
        if !paths_equal(b.last().path, p) {
            assert(calls_elsewhere(a, p) + calls_elsewhere(b.drop_last(), p).push(b.last())
                =~= (calls_elsewhere(a, p) + calls_elsewhere(b.drop_last(), p)).push(b.last()));
        }
    }
}

proof fn lemma_source_defs_path(path: Seq<char>, ls: Seq<Seq<char>>, lang: DefLang)
    ensures
        forall|k: int| 0 <= k < source_defs(path, ls, lang).len() ==> (#[trigger] source_defs(path, ls, lang)[k]).path == path,
    decreases ls.len(),
{
    if ls.len() > 0 {
        lemma_source_defs_path(path, ls.drop_last(), lang);
        let prev = source_defs(path, ls.drop_last(), lang);
        assert forall|k: int| 0 <= k < source_defs(path, ls, lang).len() implies (#[trigger] source_defs(
            path,
            ls,
            lang,
        )[k]).path == path by {
            if k < prev.len() {
                assert(source_defs(path, ls, lang)[k] == prev[k]);
            }
        }
    }
}

proof fn lemma_feature_calls_path(path: Seq<char>, ls: Seq<Seq<char>>)
    ensures
        forall|k: int| 0 <= k < feature_calls(path, ls).len() ==> (#[trigger] feature_calls(path, ls)[k]).path == path,
    decreases ls.len(),
{
    if ls.len() > 0 {
        lemma_feature_calls_path(path, ls.drop_last());
        let prev = feature_calls(path, ls.drop_last());
        assert forall|k: int| 0 <= k < feature_calls(path, ls).len() implies (#[trigger] feature_calls(
            path,
            ls,
        )[k]).path == path by {
            if k < prev.len() {
                assert(feature_calls(path, ls)[k] == prev[k]);
            }
        }
    }
}

/// Re-indexing a file is idempotent: dropping the file and scanning the
/// same text again leaves the index as one rescan left it. (`paths_equal`
/// is reflexive: a path equals itself.)
pub proof fn law_rescan_idempotent(v: IndexView, p: Seq<char>, ext: Seq<char>, content: Seq<char>)
    requires
        paths_equal(p, p),
    ensures
        ({
            let once = after_scan(after_drop(v, p), p, ext, content);
            after_scan(after_drop(once, p), p, ext, content) == once
        }),
{
    let w = after_drop(v, p);
    let once = after_scan(w, p, ext, content);
    lemma_defs_elsewhere(v.defs, p);
    lemma_calls_elsewhere(v.calls, p);
    lemma_defs_elsewhere(w.defs, p);
    lemma_calls_elsewhere(w.calls, p);
    let ls = text_lines(content);
    let fc = feature_calls(p, ls);
    let pd = source_defs(p, ls, DefLang::Python);
    let jd = source_defs(p, ls, DefLang::JavaScript);
    lemma_feature_calls_path(p, ls);
    lemma_source_defs_path(p, ls, DefLang::Python);
    lemma_source_defs_path(p, ls, DefLang::JavaScript);
    lemma_calls_elsewhere(fc, p);
    lemma_defs_elsewhere(pd, p);
    lemma_defs_elsewhere(jd, p);
    lemma_calls_elsewhere_concat(w.calls, fc, p);
    lemma_defs_elsewhere_concat(w.defs, pd, p);
    lemma_defs_elsewhere_concat(w.defs, jd, p);
    assert(w.calls + Seq::<CallView>::empty() =~= w.calls);
    assert(w.defs + Seq::<DefView>::empty() =~= w.defs);
}

/// Dropping a file undoes scanning it: on an index that holds nothing of
/// the file `p`, scanning `p` and then dropping it gives the index back.
/// (`paths_equal` is reflexive: a path equals itself.)
pub proof fn law_drop_undoes_scan(v: IndexView, p: Seq<char>, ext: Seq<char>, content: Seq<char>)
    requires
        paths_equal(p, p),
        forall|k: int| 0 <= k < v.defs.len() ==> !paths_equal((#[trigger] v.defs[k]).path, p),
        forall|k: int| 0 <= k < v.calls.len() ==> !paths_equal((#[trigger] v.calls[k]).path, p),
    ensures
        after_drop(after_scan(v, p, ext, content), p) == v,
{
    lemma_defs_elsewhere(v.defs, p);
    lemma_calls_elsewhere(v.calls, p);
    let ls = text_lines(content);
    let fc = feature_calls(p, ls);
    let pd = source_defs(p, ls, DefLang::Python);
    let jd = source_defs(p, ls, DefLang::JavaScript);
    lemma_feature_calls_path(p, ls);
    lemma_source_defs_path(p, ls, DefLang::Python);
    lemma_source_defs_path(p, ls, DefLang::JavaScript);
    lemma_calls_elsewhere(fc, p);
    lemma_defs_elsewhere(pd, p);
    lemma_defs_elsewhere(jd, p);
    lemma_calls_elsewhere_concat(v.calls, fc, p);
    lemma_defs_elsewhere_concat(v.defs, pd, p);
    lemma_defs_elsewhere_concat(v.defs, jd, p);
    assert(v.calls + Seq::<CallView>::empty() =~= v.calls);
    assert(v.defs + Seq::<DefView>::empty() =~= v.defs);
}

// ---------- expressions ----------

/// The regular expression of every Cucumber expression is anchored at both
/// ends, so a step text must match it as a whole.
pub proof fn law_regex_source_anchored(expr: Seq<char>)
    ensures
        regex_source(expr).len() >= 2,
        regex_source(expr)[0] == '^',
        regex_source(expr).last() == '$',
{
    reveal_strlit("^");
    reveal_strlit("$");
    let mid = crate::expression::pattern_from(expr, 0);
    let r = regex_source(expr);
    assert(r == "^"@ + mid + "$"@);
    assert(r[0] == "^"@[0]);
    assert(r[r.len() - 1] == "$"@[0]);
}

proof fn lemma_find_from_suffix(a: Seq<char>, q: Seq<char>, k: int, c: char)
    requires
        0 <= k <= q.len(),
    ensures
        find_from(a + q, a.len() + k, c) == a.len() + find_from(q, k, c),
    decreases q.len() - k,
{
    let s = a + q;
    if k < q.len() {
        assert(s[a.len() + k] == q[k]);
        if q[k] != c {
            lemma_find_from_suffix(a, q, k + 1, c);
        }
    }
}

proof fn lemma_token_end_suffix(a: Seq<char>, q: Seq<char>, k: int)
    requires
        0 <= k <= q.len(),
    ensures
        token_end(a + q, a.len() + k) == a.len() + token_end(q, k),
    decreases q.len() - k,
{
    let s = a + q;
    if k < q.len() {
        assert(s[a.len() + k] == q[k]);
        if !(is_ws(q[k]) || q[k] == '{' || q[k] == '(') {
            lemma_token_end_suffix(a, q, k + 1);
        }
    }
}

/// The pattern of a suffix does not depend on what precedes it.
proof fn lemma_pattern_suffix(a: Seq<char>, q: Seq<char>, k: int)
    requires
        0 <= k <= q.len(),
    ensures
        pattern_from(a + q, a.len() + k) == pattern_from(q, k),
    decreases q.len() - k,
{
    let s = a + q;
    let n = a.len() as int;
    if k < q.len() {
        let c = q[k];
        assert(s[n + k] == c);
        if c == '{' {
            lemma_find_from_suffix(a, q, k + 1, '}');
            lemma_find_from(q, k + 1, '}');
            let e = find_from(q, k + 1, '}');
            if e < q.len() {
                assert(s.subrange(n + k + 1, n + e) =~= q.subrange(k + 1, e));
                lemma_pattern_suffix(a, q, e + 1);
            } else {
                lemma_pattern_suffix(a, q, k + 1);
            }
        } else if c == '(' {
            lemma_find_from_suffix(a, q, k + 1, ')');
            lemma_find_from(q, k + 1, ')');
            let e = find_from(q, k + 1, ')');
            if e < q.len() {
                assert(s.subrange(n + k + 1, n + e) =~= q.subrange(k + 1, e));
                lemma_pattern_suffix(a, q, e + 1);
            } else {
                lemma_pattern_suffix(a, q, k + 1);
            }
        } else if is_ws(c) {
            lemma_pattern_suffix(a, q, k + 1);
        } else {
            lemma_token_end_suffix(a, q, k + 1);
            lemma_token_end(q, k + 1);
            let j = token_end(q, k + 1);
            assert(s.subrange(n + k, n + j) =~= q.subrange(k, j));
            lemma_pattern_suffix(a, q, j);
        }
    }
}

proof fn lemma_token_end_prefix(p: Seq<char>, x: Seq<char>, y: Seq<char>, k: int)
    requires
        0 <= k <= p.len(),
        x.len() > 0,
        y.len() > 0,
        x[0] == '{',
        y[0] == '{',
        forall|m: int| 0 <= m < p.len() ==> (#[trigger] p[m]) != '{',
    ensures
        token_end(p + x, k) == token_end(p + y, k),
        token_end(p + x, k) <= p.len(),
    decreases p.len() - k,
{
    let s1 = p + x;
    let s2 = p + y;
    if k == p.len() {
        assert(s1[k] == '{');
        assert(s2[k] == '{');
    } else {
        assert(s1[k] == p[k]);
        assert(s2[k] == p[k]);
        if !(is_ws(p[k]) || p[k] == '{' || p[k] == '(') {
            lemma_token_end_prefix(p, x, y, k + 1);
        }
    }
}

/// Two texts with the same prefix free of `{` and `(`, each followed by a
/// `{`, have the same pattern up to that brace once their remainders do.
proof fn lemma_pattern_prefix(p: Seq<char>, x: Seq<char>, y: Seq<char>, k: int)
    requires
        0 <= k <= p.len(),
        x.len() > 0,
        y.len() > 0,
        x[0] == '{',
        y[0] == '{',
        forall|m: int| 0 <= m < p.len() ==> (#[trigger] p[m]) != '{' && p[m] != '(',
        pattern_from(p + x, p.len() as int) == pattern_from(p + y, p.len() as int),
    ensures
        pattern_from(p + x, k) == pattern_from(p + y, k),
    decreases p.len() - k,
{
    let s1 = p + x;
    let s2 = p + y;
    if k < p.len() {
        let c = p[k];
        assert(s1[k] == c);
        assert(s2[k] == c);
        if is_ws(c) {
            lemma_pattern_prefix(p, x, y, k + 1);
        } else {
            lemma_token_end_prefix(p, x, y, k + 1);
            lemma_token_end(s1, k + 1);
            let j = token_end(s1, k + 1);
            assert(s1.subrange(k, j) =~= s2.subrange(k, j));
            lemma_pattern_prefix(p, x, y, j);
        }
    }
}

/// An unknown parameter type behaves as the anonymous parameter `{}`: a
/// Cucumber expression with `{n}`, for a name `n` other than `string`,
/// `int`, `float` and `word`, gets the same regular expression as the one
/// with `{}` in its place (so both match the same step texts), provided no
/// `{` or `(` before it opens another group.
pub proof fn law_unknown_parameter_is_anonymous(p: Seq<char>, n: Seq<char>, q: Seq<char>)
    requires
        n != "string"@,
        n != "int"@,
        n != "float"@,
        n != "word"@,
        !n.contains('}'),
        !p.contains('{'),
        !p.contains('('),
    ensures
        regex_source(p + seq!['{'] + n + seq!['}'] + q) == regex_source(p + seq!['{', '}'] + q),
{
    let x = seq!['{'] + n + seq!['}'] + q;
    let y = seq!['{', '}'] + q;
    let s1 = p + x;
    let s2 = p + y;
    assert(s1 =~= p + seq!['{'] + n + seq!['}'] + q);
    assert(s2 =~= p + seq!['{', '}'] + q);
    let m = p.len() as int;
    assert(s1[m] == '{');
    assert(s2[m] == '{');
    // the parameter of the first text
    assert forall|k: int| m + 1 <= k < m + 1 + n.len() implies s1[k] != '}' by {
        assert(s1[k] == n[k - m - 1]);
        if n[k - m - 1] == '}' {
            assert(n.contains('}'));
        }
    }
    assert(s1[m + 1 + n.len()] == '}');
    lemma_find_from(s1, m + 1, '}');
    assert(find_from(s1, m + 1, '}') == m + 1 + n.len()) by {
        let e = find_from(s1, m + 1, '}');
        if e < m + 1 + n.len() {
            assert(s1[e] != '}');
        }
    }
    assert(s1.subrange(m + 1, m + 1 + n.len()) =~= n);
    // the parameter of the second text
    assert(s2[m + 1] == '}');
    assert(s2.subrange(m + 1, m + 1) =~= Seq::<char>::empty());
    assert(parameter_pattern(n) == parameter_pattern(Seq::<char>::empty())) by {
        reveal_strlit("string");
        reveal_strlit("int");
        reveal_strlit("float");
        reveal_strlit("word");
    }
    // what follows
    let a1 = p + seq!['{'] + n + seq!['}'];
    let a2 = p + seq!['{', '}'];
    assert(s1 =~= a1 + q);
    assert(s2 =~= a2 + q);
    lemma_pattern_suffix(a1, q, 0);
    lemma_pattern_suffix(a2, q, 0);
    assert(pattern_from(s1, m) == pattern_from(s2, m));
    assert forall|k: int| 0 <= k < p.len() implies (#[trigger] p[k]) != '{' && p[k] != '(' by {
        if p[k] == '{' {
            assert(p.contains('{'));
        }
        if p[k] == '(' {
            assert(p.contains('('));
        }
    }
    lemma_pattern_prefix(p, x, y, 0);
}

// ---------- the trailing newline ----------

pub open spec fn no_nl(s: Seq<char>) -> bool {
    forall|k: int| 0 <= k < s.len() ==> (#[trigger] s[k]) != '\n'
}

pub open spec fn all_no_nl(ls: Seq<Seq<char>>) -> bool {
    forall|k: int| 0 <= k < ls.len() ==> no_nl(#[trigger] ls[k])
}

proof fn lemma_no_nl_sub(s: Seq<char>, a: int, b: int)
    requires
        no_nl(s),
        0 <= a <= b <= s.len(),
    ensures
        no_nl(s.subrange(a, b)),
{
    assert forall|k: int| 0 <= k < b - a implies (#[trigger] s.subrange(a, b)[k]) != '\n' by {
        assert(s.subrange(a, b)[k] == s[a + k]);
    }
}

proof fn lemma_no_nl_concat(a: Seq<char>, b: Seq<char>)
    requires
        no_nl(a),
        no_nl(b),
    ensures
        no_nl(a + b),
{
    assert forall|k: int| 0 <= k < (a + b).len() implies (#[trigger] (a + b)[k]) != '\n' by {
        if k < a.len() {
            assert((a + b)[k] == a[k]);
        } else {
            assert((a + b)[k] == b[k - a.len()]);
        }
    }
}

proof fn lemma_no_nl_trim(l: Seq<char>)
    requires
        no_nl(l),
    ensures
        no_nl(trim(l)),
        no_nl(trim_end(l)),
        no_nl(trim_start(l)),
{
    lemma_skip_ws(l, 0);
    lemma_no_nl_sub(l, skip_ws(l, 0), l.len() as int);
    assert(trim_start(l) == l.subrange(skip_ws(l, 0), l.len() as int));
    let t = trim_start(l);
    lemma_trail_end(t, t.len() as int);
    lemma_no_nl_sub(t, 0, trail_end(t, t.len() as int));
    assert(trim(l) == t.subrange(0, trail_end(t, t.len() as int)));
    lemma_trail_end(l, l.len() as int);
    lemma_no_nl_sub(l, 0, trail_end(l, l.len() as int));
    assert(trim_end(l) == l.subrange(0, trail_end(l, l.len() as int)));
}

proof fn lemma_split_no_nl(s: Seq<char>)
    ensures
        all_no_nl(split_char(s, '\n')),
    decreases s.len(),
{
    if s.len() > 0 {
        lemma_split_no_nl(s.drop_last());
        crate::text::lemma_split_char_len(s.drop_last(), '\n');
        let p = split_char(s.drop_last(), '\n');
        let r = split_char(s, '\n');
        if s.last() != '\n' {
            assert forall|k: int| 0 <= k < r.len() implies no_nl(#[trigger] r[k]) by {
                if k == p.len() - 1 {
                    assert(no_nl(p[k]));
                    assert(r[k] == p.last().push(s.last()));
                    assert forall|j: int| 0 <= j < r[k].len() implies (#[trigger] r[k][j]) != '\n' by {
                        if j < p[k].len() {
                            assert(r[k][j] == p[k][j]);
                        }
                    }
                } else {
                    assert(r[k] == p[k]);
                }
            }
        } else {
            assert forall|k: int| 0 <= k < r.len() implies no_nl(#[trigger] r[k]) by {
                if k < p.len() {
                    assert(r[k] == p[k]);
                }
            }
        }
    }
}

proof fn lemma_input_lines_no_nl(input: Seq<char>)
    ensures
        all_no_nl(input_lines(input)),
{
    lemma_split_no_nl(input);
    crate::text::lemma_split_char_len(input, '\n');
    let raw = split_char(input, '\n');
    assert forall|k: int| 0 <= k < input_lines(input).len() implies no_nl(#[trigger] input_lines(input)[k]) by {
        assert(input_lines(input)[k] == raw[k]);
    }
}

proof fn lemma_words_no_nl(s: Seq<char>, i: int)
    requires
        no_nl(s),
    ensures
        all_no_nl(words_from(s, i)),
    decreases s.len() - i,
{
    if 0 <= i < s.len() {
        let a = skip_ws(s, i);
        lemma_skip_ws(s, i);
        if a < s.len() {
            let b = skip_non_ws(s, a + 1);
            lemma_skip_non_ws(s, a + 1);
            lemma_words_no_nl(s, b);
            lemma_no_nl_sub(s, a, b);
            let ws = words_from(s, i);
            assert forall|k: int| 0 <= k < ws.len() implies no_nl(#[trigger] ws[k]) by {
                if k > 0 {
                    assert(ws[k] == words_from(s, b)[k - 1]);
                }
            }
        }
    }
}

proof fn lemma_all_words_no_nl(tags: Seq<Seq<char>>)
    requires
        all_no_nl(tags),
    ensures
        all_no_nl(all_words(tags)),
    decreases tags.len(),
{
    if tags.len() > 0 {
        assert forall|k: int| 0 <= k < tags.drop_last().len() implies no_nl(#[trigger] tags.drop_last()[k]) by {
            assert(tags.drop_last()[k] == tags[k]);
        }
        lemma_all_words_no_nl(tags.drop_last());
        assert(tags.last() == tags[tags.len() - 1]);
        lemma_words_no_nl(tags.last(), 0);
        let p = all_words(tags.drop_last());
        let w = words(tags.last());
        assert forall|k: int| 0 <= k < all_words(tags).len() implies no_nl(#[trigger] all_words(tags)[k]) by {
            if k < p.len() {
                assert(all_words(tags)[k] == p[k]);
            } else {
                assert(all_words(tags)[k] == w[k - p.len()]);
            }
        }
    }
}

proof fn lemma_join_no_nl(ws: Seq<Seq<char>>, sep: Seq<char>)
    requires
        all_no_nl(ws),
        no_nl(sep),
    ensures
        no_nl(join(ws, sep)),
    decreases ws.len(),
{
    if ws.len() > 1 {
        assert forall|k: int| 0 <= k < ws.drop_last().len() implies no_nl(#[trigger] ws.drop_last()[k]) by {
            assert(ws.drop_last()[k] == ws[k]);
        }
        lemma_join_no_nl(ws.drop_last(), sep);
        assert(ws.last() == ws[ws.len() - 1]);
        lemma_no_nl_concat(join(ws.drop_last(), sep), sep);
        lemma_no_nl_concat(join(ws.drop_last(), sep) + sep, ws.last());
    } else if ws.len() == 1 {
        assert(no_nl(ws[0]));
    }
}

proof fn lemma_split_cells_no_nl(s: Seq<char>, i: int, cells: Seq<Seq<char>>, buf: Seq<char>)
    requires
        no_nl(s),
        all_no_nl(cells),
        no_nl(buf),
        0 <= i,
    ensures
        all_no_nl(split_cells_from(s, i, cells, buf)),
    decreases s.len() - i,
{
    if i >= s.len() {
        lemma_no_nl_trim(buf);
        let r = cells.push(trim(buf));
        assert forall|k: int| 0 <= k < r.len() implies no_nl(#[trigger] r[k]) by {
            if k < cells.len() {
                assert(r[k] == cells[k]);
            }
        }
    } else if s[i] == '\\' && i + 1 < s.len() {
        let b2 = buf.push('\\').push(s[i + 1]);
        assert forall|k: int| 0 <= k < b2.len() implies (#[trigger] b2[k]) != '\n' by {
            if k < buf.len() {
                assert(b2[k] == buf[k]);
            }
        }
        lemma_split_cells_no_nl(s, i + 2, cells, b2);
    } else if s[i] == '|' {
        lemma_no_nl_trim(buf);
        let c2 = cells.push(trim(buf));
        assert forall|k: int| 0 <= k < c2.len() implies no_nl(#[trigger] c2[k]) by {
            if k < cells.len() {
                assert(c2[k] == cells[k]);
            }
        }
        lemma_split_cells_no_nl(s, i + 1, c2, Seq::<char>::empty());
    } else {
        let b2 = buf.push(s[i]);
        assert forall|k: int| 0 <= k < b2.len() implies (#[trigger] b2[k]) != '\n' by {
            if k < buf.len() {
                assert(b2[k] == buf[k]);
            }
        }
        lemma_split_cells_no_nl(s, i + 1, cells, b2);
    }
}

proof fn lemma_segs_no_nl(cells: Seq<Seq<char>>, ws: Seq<nat>, nums: Seq<bool>, k: int)
    requires
        all_no_nl(cells),
        0 <= k <= cells.len(),
    ensures
        no_nl(segs(cells, ws, nums, k)),
    decreases k,
{
    if k > 0 {
        lemma_segs_no_nl(cells, ws, nums, k - 1);
        let c = cells[k - 1];
        assert(no_nl(c));
        let pad = spaces((ws[k - 1] - c.len()) as nat);
        assert(no_nl(pad));
        let mid = if nums[k - 1] {
            pad + c
        } else {
            c + pad
        };
        lemma_no_nl_concat(pad, c);
        lemma_no_nl_concat(c, pad);
        assert(no_nl(seq![' ']));
        assert(no_nl(seq![' ', '|']));
        lemma_no_nl_concat(seq![' '], mid);
        lemma_no_nl_concat(seq![' '] + mid, seq![' ', '|']);
        assert(cell_seg(c, ws[k - 1], nums[k - 1]) == seq![' '] + mid + seq![' ', '|']);
        lemma_no_nl_concat(segs(cells, ws, nums, k - 1), cell_seg(c, ws[k - 1], nums[k - 1]));
    }
}

proof fn lemma_table_rows_no_nl(rows: Seq<Seq<char>>, ind: Seq<char>)
    requires
        all_no_nl(rows),
        no_nl(ind),
    ensures
        all_no_nl(table_rows(rows, ind)),
{
    let p = parse_rows(rows);
    let t = table_rows(rows, ind);
    assert forall|k: int| 0 <= k < t.len() implies no_nl(#[trigger] t[k]) by {
        let cells = p[k];
        assert(cells == row_cells(rows[k]));
        assert(no_nl(rows[k]));
        lemma_no_nl_trim(rows[k]);
        let tr = trim(rows[k]);
        if tr.len() >= 2 && tr[0] == '|' && tr[tr.len() - 1] == '|' {
            lemma_no_nl_sub(tr, 1, tr.len() - 1);
        }
        assert(no_nl(cell_region(rows[k])));
        lemma_split_cells_no_nl(cell_region(rows[k]), 0, Seq::empty(), Seq::empty());
        lemma_segs_no_nl(cells, widths(p), crate::table::numerics(p), cells.len() as int);
        lemma_no_nl_concat(ind, seq!['|']);
        lemma_no_nl_concat(ind + seq!['|'], segs(cells, widths(p), crate::table::numerics(p), cells.len() as int));
        assert(t[k] == render_row(ind, cells, widths(p), crate::table::numerics(p)));
    }
}

/// Emitted output whose lines hold no newline.
pub open spec fn emit_no_nl(e: Emit) -> bool {
    all_no_nl(e.lines)
}

proof fn lemma_emit_line_no_nl(e: Emit, x: Seq<char>)
    requires
        emit_no_nl(e),
        no_nl(x),
    ensures
        emit_no_nl(emit_line(e, x)),
{
    let f = emit_line(e, x);
    assert forall|k: int| 0 <= k < f.lines.len() implies no_nl(#[trigger] f.lines[k]) by {
        if k < e.lines.len() {
            assert(f.lines[k] == e.lines[k]);
        }
    }
}

proof fn lemma_emit_verbatim_no_nl(e: Emit, x: Seq<char>)
    requires
        emit_no_nl(e),
        no_nl(x),
    ensures
        emit_no_nl(emit_verbatim(e, x)),
{
    let f = emit_verbatim(e, x);
    assert forall|k: int| 0 <= k < f.lines.len() implies no_nl(#[trigger] f.lines[k]) by {
        if k < e.lines.len() {
            assert(f.lines[k] == e.lines[k]);
        }
    }
}

proof fn lemma_emit_all_no_nl(e: Emit, ls: Seq<Seq<char>>)
    requires
        emit_no_nl(e),
        all_no_nl(ls),
    ensures
        emit_no_nl(emit_all(e, ls)),
    decreases ls.len(),
{
    if ls.len() > 0 {
        assert forall|k: int| 0 <= k < ls.drop_last().len() implies no_nl(#[trigger] ls.drop_last()[k]) by {
            assert(ls.drop_last()[k] == ls[k]);
        }
        lemma_emit_all_no_nl(e, ls.drop_last());
        assert(ls.last() == ls[ls.len() - 1]);
        lemma_emit_line_no_nl(emit_all(e, ls.drop_last()), ls.last());
    }
}

proof fn lemma_flush_no_nl(e: Emit, tags: Seq<Seq<char>>, ind: Seq<char>, per_line: bool)
    requires
        emit_no_nl(e),
        all_no_nl(tags),
        no_nl(ind),
    ensures
        emit_no_nl(flush(e, tags, ind, per_line)),
{
    if tags.len() > 0 {
        lemma_all_words_no_nl(tags);
        let ws = all_words(tags);
        if per_line {
            let ls = prefix_each(ind, ws);
            assert forall|k: int| 0 <= k < ls.len() implies no_nl(#[trigger] ls[k]) by {
                assert(ls[k] == ind + ws[k]);
                assert(no_nl(ws[k]));
                lemma_no_nl_concat(ind, ws[k]);
            }
            lemma_emit_all_no_nl(e, ls);
        } else {
            assert(no_nl(seq![' ']));
            lemma_join_no_nl(ws, seq![' ']);
            lemma_no_nl_concat(ind, join(ws, seq![' ']));
            lemma_emit_line_no_nl(e, ind + join(ws, seq![' ']));
        }
    }
}

proof fn lemma_indent_no_nl(d: nat)
    ensures
        no_nl(indent(d)),
{
}

proof fn lemma_layout_no_nl(ls: Seq<Seq<char>>, i: int, st: Layout, per_line: bool)
    requires
        all_no_nl(ls),
        emit_no_nl(st.em),
        all_no_nl(st.tags),
    ensures
        emit_no_nl(layout_from(ls, i, st, per_line).em),
        all_no_nl(layout_from(ls, i, st, per_line).tags),
    decreases ls.len() - i,
{
    if 0 <= i < ls.len() {
        let l = ls[i];
        assert(no_nl(l));
        lemma_no_nl_trim(l);
        if st.in_doc {
            if is_docstring_marker(l) {
                let x = indent(st.depth + 1) + trim(l);
                lemma_indent_no_nl(st.depth + 1);
                lemma_no_nl_concat(indent(st.depth + 1), trim(l));
                lemma_emit_line_no_nl(st.em, x);
                lemma_layout_no_nl(ls, i + 1, Layout { in_doc: false, em: emit_line(st.em, x), ..st }, per_line);
            } else {
                lemma_emit_verbatim_no_nl(st.em, l);
                lemma_layout_no_nl(
                    ls,
                    i + 1,
                    Layout { em: emit_verbatim(st.em, l), ..st },
                    per_line,
                );
            }
        } else if is_blank(l) {
            lemma_layout_no_nl(ls, i + 1, Layout { em: emit_blank(st.em), ..st }, per_line);
        } else if is_tag(l) {
            let tags = st.tags.push(trim(l));
            assert forall|k: int| 0 <= k < tags.len() implies no_nl(#[trigger] tags[k]) by {
                if k < st.tags.len() {
                    assert(tags[k] == st.tags[k]);
                }
            }
            lemma_layout_no_nl(ls, i + 1, Layout { tags, ..st }, per_line);
        } else if is_table(l) {
            let j = table_end(ls, i);
            lemma_table_end(ls, i + 1);
            let ind = crate::formatter::table_indent(st, l);
            lemma_indent_no_nl(st.depth + 1);
            lemma_skip_ws(l, 0);
            lemma_no_nl_sub(l, 0, skip_ws(l, 0));
            assert(crate::classify::leading_indent(l) == l.subrange(0, skip_ws(l, 0)));
            assert(no_nl(ind));
            lemma_flush_no_nl(st.em, st.tags, ind, per_line);
            let e1 = flush(st.em, st.tags, ind, per_line);
            let region = ls.subrange(i, j);
            assert forall|k: int| 0 <= k < region.len() implies no_nl(#[trigger] region[k]) by {
                assert(region[k] == ls[i + k]);
            }
            lemma_table_rows_no_nl(region, ind);
            let rows = table_rows(region, ind);
            lemma_emit_all_no_nl(e1, rows);
            lemma_layout_no_nl(ls, j, Layout { tags: Seq::empty(), em: emit_all(e1, rows), ..st }, per_line);
        } else if is_docstring_marker(l) {
            let ind = indent(st.depth + 1);
            lemma_flush_no_nl(st.em, st.tags, ind, per_line);
            let e1 = flush(st.em, st.tags, ind, per_line);
            lemma_no_nl_concat(ind, trim(l));
            lemma_emit_line_no_nl(e1, ind + trim(l));
            lemma_layout_no_nl(
                ls,
                i + 1,
                Layout { tags: Seq::empty(), in_doc: true, em: emit_line(e1, ind + trim(l)), ..st },
                per_line,
            );
        } else {
            let ind = indent(crate::formatter::line_depth(st, l));
            lemma_flush_no_nl(st.em, st.tags, ind, per_line);
            let e1 = flush(st.em, st.tags, ind, per_line);
            lemma_no_nl_concat(ind, trim(l));
            lemma_emit_line_no_nl(e1, ind + trim(l));
            let st1 = Layout { tags: Seq::empty(), em: emit_line(e1, ind + trim(l)), ..st };
            lemma_layout_no_nl(ls, i + 1, crate::formatter::after_header(st1, l), per_line);
        }
    }
}

/// No line of the layout holds a newline.
proof fn lemma_layout_lines_no_nl(input: Seq<char>, per_line: bool)
    ensures
        all_no_nl(layout(input, per_line).lines),
{
    let ls = input_lines(input);
    lemma_input_lines_no_nl(input);
    let st0 = layout_new();
    lemma_layout_no_nl(ls, 0, st0, per_line);
    let st = layout_from(ls, 0, st0, per_line);
    lemma_indent_no_nl(st.depth);
    lemma_flush_no_nl(st.em, st.tags, indent(st.depth), per_line);
}

proof fn lemma_join_nl_last(ws: Seq<Seq<char>>)
    requires
        ws.len() > 0,
    ensures
        ws.last().len() > 0 ==> join(ws, seq!['\n']).len() > 0 && join(ws, seq!['\n']).last()
            == ws.last().last(),
        ws.len() >= 2 && ws.last().len() == 0 ==> join(ws, seq!['\n']) == join(
            ws.drop_last(),
            seq!['\n'],
        ).push('\n'),
{
    if ws.len() >= 2 {
        assert(join(ws, seq!['\n']) == join(ws.drop_last(), seq!['\n']) + seq!['\n'] + ws.last());
        if ws.last().len() == 0 {
            assert(join(ws.drop_last(), seq!['\n']) + seq!['\n'] + ws.last() =~= join(
                ws.drop_last(),
                seq!['\n'],
            ).push('\n'));
        }
    }
}

/// The output ends with exactly one newline, unless its last two lines are
/// empty and the last one is doc-string content (an unterminated doc-string
/// that ends in blank lines).
pub proof fn law_single_trailing_newline(input: Seq<char>, per_line: bool)
    ensures
        ({
            let e = layout(input, per_line);
            let out = formatted(input, per_line);
            let n = e.lines.len();
            &&& out.last() == '\n'
            &&& out.len() >= 2 && out[out.len() - 2] == '\n' ==> {
                &&& n >= 2
                &&& e.lines[n - 1].len() == 0
                &&& e.lines[n - 2].len() == 0
                &&& e.body[n - 1]
            }
        }),
{
    let e = layout(input, per_line);
    let out = formatted(input, per_line);
    let ls = e.lines;
    let n = ls.len();
    law_blank_lines_collapsed(input, per_line);
    lemma_layout_lines_no_nl(input, per_line);
    if n == 0 {
        assert(join(ls, seq!['\n']).len() == 0);
    } else {
        lemma_join_nl_last(ls);
        assert(ls.last() == ls[n - 1]);
        assert(no_nl(ls[n - 1]));
        if ls[n - 1].len() > 0 {
            let j = join(ls, seq!['\n']);
            assert(j.last() == ls[n - 1][ls[n - 1].len() - 1]);
            assert(out == j.push('\n'));
        } else {
            // n >= 2, since the first line is never empty
            let d = ls.drop_last();
            let jd = join(d, seq!['\n']);
            assert(out == jd.push('\n'));
            assert(d.last() == ls[n - 2]);
            lemma_join_nl_last(d);
            assert(no_nl(ls[n - 2]));
            if ls[n - 2].len() > 0 {
                assert(jd.last() == ls[n - 2][ls[n - 2].len() - 1]);
            }
        }
    }
}


// ---------- numbers ----------

proof fn lemma_digits_no_mark(d: Seq<char>, i: int)
    requires
        0 <= i <= d.len(),
        all_digits(d),
    ensures
        exponent_mark(d, i) == d.len(),
        digit_run(d, i) == d.len(),
    decreases d.len() - i,
{
    if i < d.len() {
        assert(is_digit(d[i]));
        lemma_digits_no_mark(d, i + 1);
    }
}

/// A sign in front of a text that has none changes nothing about whether
/// it is a number: `f64::from_str` takes one optional sign before any
/// number, infinity or NaN.
pub proof fn law_sign_prefix_keeps_number(s: Seq<char>)
    requires
        !(s.len() > 0 && (s[0] == '+' || s[0] == '-')),
    ensures
        is_float_literal(seq!['-'] + s) == is_float_literal(s),
        is_float_literal(seq!['+'] + s) == is_float_literal(s),
{
    assert((seq!['-'] + s).drop_first() =~= s);
    assert((seq!['+'] + s).drop_first() =~= s);
}

/// Every non-empty run of decimal digits is a number, unsigned or with one
/// `+` or `-` in front, and so is that text as a table cell.
pub proof fn law_signed_integers_are_numbers(d: Seq<char>)
    requires
        d.len() > 0,
        all_digits(d),
    ensures
        is_float_literal(d),
        is_float_literal(seq!['-'] + d),
        is_float_literal(seq!['+'] + d),
        is_number_text(d),
        is_number_text(seq!['-'] + d),
        is_number_text(seq!['+'] + d),
{
    lemma_digits_no_mark(d, 0);
    assert(d.take(d.len() as int) =~= d);
    assert(valid_decimal(d));
    assert(!(d[0] == '+' || d[0] == '-')) by {
        assert(is_digit(d[0]));
    }
    law_sign_prefix_keeps_number(d);
    assert(!is_ws(d[0]) && !is_ws(d.last())) by {
        assert(is_digit(d[0]));
        assert(is_digit(d[d.len() - 1]));
    }
    lemma_trim_padded(Seq::empty(), d, Seq::empty());
    assert(Seq::<char>::empty() + d + Seq::<char>::empty() =~= d);
    let m = seq!['-'] + d;
    let p = seq!['+'] + d;
    assert(m.last() == d.last());
    assert(p.last() == d.last());
    lemma_trim_padded(Seq::empty(), m, Seq::empty());
    assert(Seq::<char>::empty() + m + Seq::<char>::empty() =~= m);
    lemma_trim_padded(Seq::empty(), p, Seq::empty());
    assert(Seq::<char>::empty() + p + Seq::<char>::empty() =~= p);
}

// ---------- looking up the line under the cursor ----------

/// The call on (`p`, `line`).
pub open spec fn call_on(c: CallView, p: Seq<char>, line: u32) -> bool {
    paths_equal(c.path, p) && c.line == line
}

/// The definition on (`p`, `line`).
pub open spec fn def_on(d: DefView, p: Seq<char>, line: u32) -> bool {
    paths_equal(d.path, p) && d.line == line
}

proof fn lemma_call_at_from(cs: Seq<CallView>, p: Seq<char>, line: u32, i: int)
    requires
        0 <= i <= cs.len(),
    ensures
        i <= call_at_from(cs, p, line, i) <= cs.len(),
        call_at_from(cs, p, line, i) < cs.len() ==> call_on(cs[call_at_from(cs, p, line, i)], p, line),
        forall|m: int| i <= m < call_at_from(cs, p, line, i) ==> !call_on(#[trigger] cs[m], p, line),
    decreases cs.len() - i,
{
    if i < cs.len() && !call_on(cs[i], p, line) {
        lemma_call_at_from(cs, p, line, i + 1);
    }
}

proof fn lemma_def_at_from(ds: Seq<DefView>, p: Seq<char>, line: u32, i: int)
    requires
        0 <= i <= ds.len(),
    ensures
        i <= def_at_from(ds, p, line, i) <= ds.len(),
        def_at_from(ds, p, line, i) < ds.len() ==> def_on(ds[def_at_from(ds, p, line, i)], p, line),
        forall|m: int| i <= m < def_at_from(ds, p, line, i) ==> !def_on(#[trigger] ds[m], p, line),
    decreases ds.len() - i,
{
    if i < ds.len() && !def_on(ds[i], p, line) {
        lemma_def_at_from(ds, p, line, i + 1);
    }
}

/// Go-to-definition from line `line` of the file `p` uses the first step
/// call on that very line of that very file: its answer is the definitions
/// whose pattern matches that call's text.
pub proof fn law_definition_uses_call_on_line(v: IndexView, p: Seq<char>, line: u32, k: int)
    requires
        0 <= k < v.calls.len(),
        call_on(v.calls[k], p, line),
        forall|m: int| 0 <= m < k ==> !call_on(#[trigger] v.calls[m], p, line),
    ensures
        definitions_of(v, p, line) == defs_matching(v.defs, v.calls[k].text),
{
    lemma_call_at_from(v.calls, p, line, 0);
    let r = call_at_from(v.calls, p, line, 0);
    if r < k {
        assert(!call_on(v.calls[r], p, line));
    }
    if r > k {
        assert(!call_on(v.calls[k], p, line));
    }
}

/// Go-to-definition from a line that holds no step call of that file
/// answers nothing.
pub proof fn law_definition_off_calls_is_empty(v: IndexView, p: Seq<char>, line: u32)
    requires
        forall|m: int| 0 <= m < v.calls.len() ==> !call_on(#[trigger] v.calls[m], p, line),
    ensures
        definitions_of(v, p, line) == Seq::<LocView>::empty(),
{
    lemma_call_at_from(v.calls, p, line, 0);
    let r = call_at_from(v.calls, p, line, 0);
    if r < v.calls.len() {
        assert(!call_on(v.calls[r], p, line));
    }
}

/// Find-references from a definition uses the first definition on that very
/// line of that very file: its answer is the calls that definition's
/// pattern matches.
pub proof fn law_references_from_definition_on_line(v: IndexView, p: Seq<char>, line: u32, k: int)
    requires
        0 <= k < v.defs.len(),
        def_on(v.defs[k], p, line),
        forall|m: int| 0 <= m < k ==> !def_on(#[trigger] v.defs[m], p, line),
    ensures
        references_of(v, p, line) == calls_matching(v.calls, v.defs[k].pattern),
{
    lemma_def_at_from(v.defs, p, line, 0);
    let r = def_at_from(v.defs, p, line, 0);
    if r < k {
        assert(!def_on(v.defs[r], p, line));
    }
    if r > k {
        assert(!def_on(v.defs[k], p, line));
    }
}

/// Find-references from a line with no definition but a step call uses the
/// first call on that very line of that very file: its answer is, for each
/// definition matching that call's text, the calls the definition matches.
pub proof fn law_references_from_call_on_line(v: IndexView, p: Seq<char>, line: u32, k: int)
    requires
        forall|m: int| 0 <= m < v.defs.len() ==> !def_on(#[trigger] v.defs[m], p, line),
        0 <= k < v.calls.len(),
        call_on(v.calls[k], p, line),
        forall|m: int| 0 <= m < k ==> !call_on(#[trigger] v.calls[m], p, line),
    ensures
        references_of(v, p, line) == sibling_calls(v.defs, v.calls, v.calls[k].text),
{
    lemma_def_at_from(v.defs, p, line, 0);
    let d = def_at_from(v.defs, p, line, 0);
    if d < v.defs.len() {
        assert(!def_on(v.defs[d], p, line));
    }
    lemma_call_at_from(v.calls, p, line, 0);
    let r = call_at_from(v.calls, p, line, 0);
    if r < k {
        assert(!call_on(v.calls[r], p, line));
    }
    if r > k {
        assert(!call_on(v.calls[k], p, line));
    }
}

/// Find-references from a line that holds neither a definition nor a step
/// call of that file answers nothing.
pub proof fn law_references_off_entries_is_empty(v: IndexView, p: Seq<char>, line: u32)
    requires
        forall|m: int| 0 <= m < v.defs.len() ==> !def_on(#[trigger] v.defs[m], p, line),
        forall|m: int| 0 <= m < v.calls.len() ==> !call_on(#[trigger] v.calls[m], p, line),
    ensures
        references_of(v, p, line) == Seq::<LocView>::empty(),
{
    lemma_def_at_from(v.defs, p, line, 0);
    let d = def_at_from(v.defs, p, line, 0);
    if d < v.defs.len() {
        assert(!def_on(v.defs[d], p, line));
    }
    lemma_call_at_from(v.calls, p, line, 0);
    let r = call_at_from(v.calls, p, line, 0);
    if r < v.calls.len() {
        assert(!call_on(v.calls[r], p, line));
    }
}

} // verus!
