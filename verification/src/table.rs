//! Column alignment of Gherkin tables.
//!
//! A table row `| a | b |` is split into trimmed cells (a backslash keeps the
//! character after it inside the cell), every column is padded to its widest
//! cell, and body columns whose non-empty cells are all numbers are
//! right-aligned.

use vstd::prelude::*;
use crate::text::{
    is_ws, lemma_skip_ws, lemma_trail_end, push_chars, push_spaces, skip_ws, spaces, trail_end,
    trim, trim_chars, trim_end, trim_start, views,
};

verus! {

// ---------- numbers ----------

pub open spec fn is_digit(c: char) -> bool {
    '0' <= c <= '9'
}

/// `c` is the lower-case ASCII letter `w` or its upper-case form.
pub open spec fn same_letter(c: char, w: char) -> bool {
    c == w || (c as u32) + 32 == (w as u32)
}

/// `s` spells the lower-case word `w`, ignoring ASCII case.
pub open spec fn eq_ignore_ascii_case(s: Seq<char>, w: Seq<char>) -> bool {
    s.len() == w.len() && forall|i: int| 0 <= i < s.len() ==> same_letter(#[trigger] s[i], w[i])
}

pub open spec fn all_digits(s: Seq<char>) -> bool {
    forall|i: int| 0 <= i < s.len() ==> is_digit(#[trigger] s[i])
}

/// First index at or after `i` that does not hold a decimal digit.
pub open spec fn digit_run(s: Seq<char>, i: int) -> int
    decreases s.len() - i,
{
    if i < 0 || i >= s.len() {
        i
    } else if is_digit(s[i]) {
        digit_run(s, i + 1)
    } else {
        i
    }
}

/// First index at or after `i` that holds `e` or `E`.
pub open spec fn exponent_mark(s: Seq<char>, i: int) -> int
    decreases s.len() - i,
{
    if i < 0 || i >= s.len() {
        i
    } else if s[i] == 'e' || s[i] == 'E' {
        i
    } else {
        exponent_mark(s, i + 1)
    }
}

/// `Digit+ | Digit+ '.' Digit* | Digit* '.' Digit+`
pub open spec fn valid_mantissa(m: Seq<char>) -> bool {
    let d = digit_run(m, 0);
    if d == m.len() {
        d >= 1
    } else {
        &&& m[d] == '.'
        &&& all_digits(m.skip(d + 1))
        &&& d >= 1 || m.len() - d - 1 >= 1
    }
}

pub open spec fn drop_sign(s: Seq<char>) -> Seq<char> {
    if s.len() > 0 && (s[0] == '+' || s[0] == '-') {
        s.drop_first()
    } else {
        s
    }
}

/// `Sign? Digit+`, what follows the exponent mark.
pub open spec fn valid_exponent(x: Seq<char>) -> bool {
    drop_sign(x).len() >= 1 && all_digits(drop_sign(x))
}

pub open spec fn valid_decimal(b: Seq<char>) -> bool {
    let e = exponent_mark(b, 0);
    valid_mantissa(b.take(e)) && (e == b.len() || valid_exponent(b.skip(e + 1)))
}

/// The strings that `f64::from_str` accepts, per its documented grammar
/// (case-insensitive): `Sign? ('inf' | 'infinity' | 'nan' | Number)`.
pub open spec fn is_float_literal(s: Seq<char>) -> bool {
    let b = drop_sign(s);
    ||| eq_ignore_ascii_case(b, seq!['i', 'n', 'f'])
    ||| eq_ignore_ascii_case(b, seq!['i', 'n', 'f', 'i', 'n', 'i', 't', 'y'])
    ||| eq_ignore_ascii_case(b, seq!['n', 'a', 'n'])
    ||| valid_decimal(b)
}

pub open spec fn is_number_text(s: Seq<char>) -> bool {
    trim(s).len() > 0 && is_float_literal(trim(s))
}

proof fn lemma_digit_run(s: Seq<char>, i: int)
    requires
        0 <= i <= s.len(),
    ensures
        i <= digit_run(s, i) <= s.len(),
        forall|k: int| i <= k < digit_run(s, i) ==> is_digit(#[trigger] s[k]),
        digit_run(s, i) < s.len() ==> !is_digit(s[digit_run(s, i)]),
    decreases s.len() - i,
{
    if i < s.len() && is_digit(s[i]) {
        lemma_digit_run(s, i + 1);
    }
}

fn char_is_digit(c: char) -> (r: bool)
    ensures
        r == is_digit(c),
{
    '0' <= c && c <= '9'
}

fn letter_matches(c: char, w: char) -> (r: bool)
    ensures
        r == same_letter(c, w),
{
    c == w || (c as u32) + 32 == (w as u32)
}

pub(crate) fn eq_ignore_case_at(s: &Vec<char>, a: usize, w: &Vec<char>) -> (r: bool)
    requires
        a <= s.len(),
    ensures
        r == eq_ignore_ascii_case(s@.skip(a as int), w@),
{
    if s.len() - a != w.len() {
        return false;
    }
    let mut k: usize = 0;
    while k < w.len()
        invariant
            a + w.len() == s.len(),
            k <= w.len(),
            forall|j: int| 0 <= j < k ==> same_letter(s@[a + j], w@[j]),
        decreases w.len() - k,
    {
        if !letter_matches(s[a + k], w[k]) {
            proof {
                assert(s@.skip(a as int)[k as int] == s@[a + k]);
            }
            return false;
        }
        k += 1;
    }
    proof {
        assert forall|i: int| 0 <= i < s@.skip(a as int).len() implies same_letter(
            #[trigger] s@.skip(a as int)[i],
            w@[i],
        ) by {
            assert(s@.skip(a as int)[i] == s@[a + i]);
        }
    }
    true
}

fn digits_from(s: &Vec<char>, i: usize, end: usize) -> (r: usize)
    requires
        i <= end <= s.len(),
    ensures
        r == digit_run(s@.take(end as int), i as int),
        i <= r <= end,
{
    let ghost t = s@.take(end as int);
    let mut j = i;
    while j < end && char_is_digit(s[j])
        invariant
            i <= j <= end <= s.len(),
            t == s@.take(end as int),
            digit_run(t, j as int) == digit_run(t, i as int),
        decreases end - j,
    {
        j += 1;
    }
    j
}

fn all_digits_in(s: &Vec<char>, a: usize, b: usize) -> (r: bool)
    requires
        a <= b <= s.len(),
    ensures
        r == all_digits(s@.subrange(a as int, b as int)),
{
    let mut k = a;
    while k < b
        invariant
            a <= k <= b <= s.len(),
            forall|j: int| a <= j < k ==> is_digit(s@[j]),
        decreases b - k,
    {
        if !char_is_digit(s[k]) {
            proof {
                assert(s@.subrange(a as int, b as int)[k - a] == s@[k as int]);
            }
            return false;
        }
        k += 1;
    }
    proof {
        assert forall|i: int| 0 <= i < s@.subrange(a as int, b as int).len() implies is_digit(
            #[trigger] s@.subrange(a as int, b as int)[i],
        ) by {
            assert(s@.subrange(a as int, b as int)[i] == s@[a + i]);
        }
    }
    true
}

/// Decides `valid_decimal(s[a..])`.
fn decimal_at(s: &Vec<char>, a: usize) -> (r: bool)
    requires
        a <= s.len(),
    ensures
        r == valid_decimal(s@.skip(a as int)),
{
    let ghost b = s@.skip(a as int);
    // locate the exponent mark
    let mut e = a;
    while e < s.len() && !(s[e] == 'e' || s[e] == 'E')
        invariant
            a <= e <= s.len(),
            b == s@.skip(a as int),
            exponent_mark(b, (e - a) as int) == exponent_mark(b, 0),
        decreases s.len() - e,
    {
        e += 1;
    }
    proof {
        assert(exponent_mark(b, (e - a) as int) == (e - a) as int);
        assert(b.take((e - a) as int) == s@.subrange(a as int, e as int));
    }
    // mantissa s[a..e]
    let d = digits_from(s, a, e);
    proof {
        let m = b.take((e - a) as int);
        lemma_digit_run(s@.take(e as int), a as int);
        lemma_digit_run(m, 0);
        assert(m =~= s@.take(e as int).skip(a as int));
        lemma_digit_run_shift(s@.take(e as int), a as int, m);
        assert(digit_run(m, 0) == d - a);
    }
    let mantissa_ok = if d == e {
        d > a
    } else {
        proof {
            let m = b.take((e - a) as int);
            assert(m[(d - a) as int] == s@[d as int]);
            assert(m.skip((d - a) + 1) == s@.subrange(d + 1, e as int));
        }
        s[d] == '.' && all_digits_in(s, d + 1, e) && (d > a || e - d - 1 >= 1)
    };
    if !mantissa_ok {
        return false;
    }
    if e == s.len() {
        return true;
    }
    // exponent s[e+1..]
    let mut x = e + 1;
    if x < s.len() && (s[x] == '+' || s[x] == '-') {
        x += 1;
    }
    proof {
        let xs = b.skip((e - a) + 1);
        assert(xs == s@.subrange(e + 1, s.len() as int));
        assert(drop_sign(xs) == s@.subrange(x as int, s.len() as int));
    }
    x < s.len() && all_digits_in(s, x, s.len())
}

proof fn lemma_digit_run_shift(t: Seq<char>, a: int, m: Seq<char>)
    requires
        0 <= a <= t.len(),
        m == t.skip(a),
    ensures
        digit_run(m, 0) == digit_run(t, a) - a,
{
    lemma_digit_run_shift_from(t, a, m, 0);
}

proof fn lemma_digit_run_shift_from(t: Seq<char>, a: int, m: Seq<char>, k: int)
    requires
        0 <= a <= t.len(),
        0 <= k <= m.len(),
        m == t.skip(a),
    ensures
        digit_run(m, k) == digit_run(t, a + k) - a,
    decreases m.len() - k,
{
    if k < m.len() {
        assert(m[k] == t[a + k]);
        if is_digit(m[k]) {
            lemma_digit_run_shift_from(t, a, m, k + 1);
        }
    }
}

/// Whether `s` is a number in the syntax that `f64::from_str` accepts.
pub fn float_literal(s: &Vec<char>) -> (r: bool)
    ensures
        r == is_float_literal(s@),
{
    let a: usize = if s.len() > 0 && (s[0] == '+' || s[0] == '-') {
        1
    } else {
        0
    };
    proof {
        assert(drop_sign(s@) == s@.skip(a as int));
    }
    let inf = vec!['i', 'n', 'f'];
    let infinity = vec!['i', 'n', 'f', 'i', 'n', 'i', 't', 'y'];
    let nan = vec!['n', 'a', 'n'];
    proof {
        assert(inf@ == seq!['i', 'n', 'f']);
        assert(infinity@ == seq!['i', 'n', 'f', 'i', 'n', 'i', 't', 'y']);
        assert(nan@ == seq!['n', 'a', 'n']);
    }
    eq_ignore_case_at(s, a, &inf) || eq_ignore_case_at(s, a, &infinity) || eq_ignore_case_at(
        s,
        a,
        &nan,
    ) || decimal_at(s, a)
}

pub fn is_numeric(s: &Vec<char>) -> (r: bool)
    ensures
        r == is_number_text(s@),
{
    let t = trim_chars(s);
    t.len() > 0 && float_literal(&t)
}

// ---------- cells ----------

/// The text between the outer pipes of a trimmed row (the trimmed row
/// itself when it is not enclosed in pipes).
pub open spec fn cell_region(l: Seq<char>) -> Seq<char> {
    let t = trim(l);
    if t.len() >= 2 && t[0] == '|' && t[t.len() - 1] == '|' {
        t.subrange(1, t.len() - 1)
    } else {
        t
    }
}

/// Splits `s[i..]` at unescaped pipes; `cells` are the finished cells and
/// `buf` the cell being read.
pub open spec fn split_cells_from(
    s: Seq<char>,
    i: int,
    cells: Seq<Seq<char>>,
    buf: Seq<char>,
) -> Seq<Seq<char>>
    decreases s.len() - i,
{
    if i < 0 || i >= s.len() {
        cells.push(trim(buf))
    } else if s[i] == '\\' && i + 1 < s.len() {
        split_cells_from(s, i + 2, cells, buf.push('\\').push(s[i + 1]))
    } else if s[i] == '|' {
        split_cells_from(s, i + 1, cells.push(trim(buf)), Seq::<char>::empty())
    } else {
        split_cells_from(s, i + 1, cells, buf.push(s[i]))
    }
}

/// The trimmed cells of a table row.
pub open spec fn row_cells(l: Seq<char>) -> Seq<Seq<char>> {
    split_cells_from(cell_region(l), 0, Seq::empty(), Seq::empty())
}

pub proof fn lemma_split_cells_len(s: Seq<char>, i: int, cells: Seq<Seq<char>>, buf: Seq<char>)
    ensures
        split_cells_from(s, i, cells, buf).len() >= cells.len() + 1,
    decreases s.len() - i,
{
    if 0 <= i < s.len() {
        if s[i] == '\\' && i + 1 < s.len() {
            lemma_split_cells_len(s, i + 2, cells, buf.push('\\').push(s[i + 1]));
        } else if s[i] == '|' {
            lemma_split_cells_len(s, i + 1, cells.push(trim(buf)), Seq::<char>::empty());
        } else {
            lemma_split_cells_len(s, i + 1, cells, buf.push(s[i]));
        }
    }
}

fn region_of(l: &Vec<char>) -> (r: Vec<char>)
    ensures
        r@ == cell_region(l@),
{
    let t = trim_chars(l);
    let n = t.len();
    if n >= 2 && t[0] == '|' && t[n - 1] == '|' {
        crate::text::slice(&t, 1, n - 1)
    } else {
        t
    }
}

/// The trimmed cells of a table row; `\|` stays inside its cell.
pub fn split_cells(line: &Vec<char>) -> (r: Vec<Vec<char>>)
    ensures
        views(r@) == row_cells(line@),
{
    let inner = region_of(line);
    let mut cells: Vec<Vec<char>> = Vec::new();
    let mut buf: Vec<char> = Vec::new();
    let mut i: usize = 0;
    proof {
        assert(views(cells@) =~= Seq::<Seq<char>>::empty());
        assert(buf@ =~= Seq::<char>::empty());
    }
    while i < inner.len()
        invariant
            i <= inner.len(),
            split_cells_from(inner@, i as int, views(cells@), buf@) == row_cells(line@),
        decreases inner.len() - i,
    {
        let c = inner[i];
        if c == '\\' && i + 1 < inner.len() {
            buf.push(c);
            buf.push(inner[i + 1]);
            i += 2;
        } else if c == '|' {
            let cell = trim_chars(&buf);
            proof {
                assert(views(cells@.push(cell)) == views(cells@).push(trim(buf@)));
            }
            cells.push(cell);
            buf = Vec::new();
            i += 1;
        } else {
            buf.push(c);
            i += 1;
        }
    }
    let cell = trim_chars(&buf);
    proof {
        assert(views(cells@.push(cell)) == views(cells@).push(trim(buf@)));
    }
    cells.push(cell);
    cells
}

// ---------- alignment ----------

/// The display width of a cell: its number of characters.
pub fn display_width(s: &Vec<char>) -> (r: usize)
    ensures
        r == s@.len(),
{
    s.len()
}

pub open spec fn views2(v: Seq<Vec<Vec<char>>>) -> Seq<Seq<Seq<char>>> {
    v.map_values(|x: Vec<Vec<char>>| views(x@))
}

pub open spec fn parse_rows(rows: Seq<Seq<char>>) -> Seq<Seq<Seq<char>>> {
    rows.map_values(|r: Seq<char>| row_cells(r))
}

/// The largest number of cells in a row.
pub open spec fn max_cols(p: Seq<Seq<Seq<char>>>) -> nat
    decreases p.len(),
{
    if p.len() == 0 {
        0
    } else {
        let m = max_cols(p.drop_last());
        if p.last().len() > m {
            p.last().len()
        } else {
            m
        }
    }
}

/// The width (in characters) of the widest cell of column `c`.
pub open spec fn col_width(p: Seq<Seq<Seq<char>>>, c: int) -> nat
    decreases p.len(),
{
    if p.len() == 0 {
        0
    } else {
        let m = col_width(p.drop_last(), c);
        let w = if 0 <= c < p.last().len() {
            p.last()[c].len()
        } else {
            0
        };
        if w > m {
            w
        } else {
            m
        }
    }
}

pub open spec fn numeric_cell(cell: Seq<char>) -> bool {
    cell.len() == 0 || is_number_text(cell)
}

/// Column `c` is right-aligned: the table has a body, and every non-empty
/// body cell of the column is a number.
pub open spec fn col_numeric(p: Seq<Seq<Seq<char>>>, c: int) -> bool {
    p.len() > 1 && forall|r: int|
        1 <= r < p.len() && 0 <= c < p[r].len() ==> numeric_cell(#[trigger] p[r][c])
}

/// One aligned cell: a space, the cell padded to `w`, a space and a pipe.
pub open spec fn cell_seg(cell: Seq<char>, w: nat, num: bool) -> Seq<char> {
    let pad = spaces((w - cell.len()) as nat);
    seq![' '] + (if num {
        pad + cell
    } else {
        cell + pad
    }) + seq![' ', '|']
}

/// The first `k` aligned cells of a row.
pub open spec fn segs(cells: Seq<Seq<char>>, ws: Seq<nat>, nums: Seq<bool>, k: int) -> Seq<char>
    decreases k,
{
    if k <= 0 {
        Seq::empty()
    } else {
        segs(cells, ws, nums, k - 1) + cell_seg(cells[k - 1], ws[k - 1], nums[k - 1])
    }
}

pub open spec fn render_row(
    indent: Seq<char>,
    cells: Seq<Seq<char>>,
    ws: Seq<nat>,
    nums: Seq<bool>,
) -> Seq<char> {
    indent + seq!['|'] + segs(cells, ws, nums, cells.len() as int)
}

pub open spec fn widths(p: Seq<Seq<Seq<char>>>) -> Seq<nat> {
    Seq::new(max_cols(p), |c: int| col_width(p, c))
}

pub open spec fn numerics(p: Seq<Seq<Seq<char>>>) -> Seq<bool> {
    Seq::new(max_cols(p), |c: int| col_numeric(p, c))
}

/// The aligned rows of a table region, each prefixed with `indent`.
pub open spec fn table_rows(rows: Seq<Seq<char>>, indent: Seq<char>) -> Seq<Seq<char>> {
    let p = parse_rows(rows);
    p.map_values(|cells: Seq<Seq<char>>| render_row(indent, cells, widths(p), numerics(p)))
}

pub proof fn lemma_max_cols(p: Seq<Seq<Seq<char>>>)
    ensures
        forall|r: int| 0 <= r < p.len() ==> (#[trigger] p[r]).len() <= max_cols(p),
    decreases p.len(),
{
    if p.len() > 0 {
        lemma_max_cols(p.drop_last());
        assert forall|r: int| 0 <= r < p.len() implies (#[trigger] p[r]).len() <= max_cols(p) by {
            if r < p.len() - 1 {
                assert(p.drop_last()[r] == p[r]);
            }
        }
    }
}

pub proof fn lemma_col_width(p: Seq<Seq<Seq<char>>>, c: int)
    ensures
        forall|r: int| 0 <= r < p.len() && 0 <= c < p[r].len() ==> (#[trigger] p[r])[c].len() <= col_width(p, c),
    decreases p.len(),
{
    if p.len() > 0 {
        lemma_col_width(p.drop_last(), c);
        assert forall|r: int| 0 <= r < p.len() && 0 <= c < p[r].len() implies (#[trigger] p[r])[c].len()
            <= col_width(p, c) by {
            if r < p.len() - 1 {
                assert(p.drop_last()[r] == p[r]);
            }
        }
    }
}

/// Renders a block of table rows, one row per returned line, each prefixed
/// with `indent`. Column widths are computed across the block; body columns
/// (everything past row 0) whose non-empty cells all parse as numbers are
/// right-aligned.
pub fn format_table(rows: &Vec<Vec<char>>, indent: &Vec<char>) -> (r: Vec<Vec<char>>)
    ensures
        views(r@) == table_rows(views(rows@), indent@),
{
    let ghost p = parse_rows(views(rows@));
    let mut parsed: Vec<Vec<Vec<char>>> = Vec::new();
    let mut col_count: usize = 0;
    let mut k: usize = 0;
    while k < rows.len()
        invariant
            k <= rows.len(),
            p == parse_rows(views(rows@)),
            views2(parsed@) == p.take(k as int),
            col_count == max_cols(p.take(k as int)),
        decreases rows.len() - k,
    {
        let cells = split_cells(&rows[k]);
        proof {
            assert(p.take(k + 1).drop_last() == p.take(k as int));
            assert(p[k as int] == row_cells(rows@[k as int]@));
            assert(views2(parsed@.push(cells)) == views2(parsed@).push(views(cells@)));
        }
        if cells.len() > col_count {
            col_count = cells.len();
        }
        parsed.push(cells);
        k += 1;
    }
    proof {
        assert(p.take(rows.len() as int) == p);
        lemma_max_cols(p);
    }
    // column widths
    let mut ws: Vec<usize> = Vec::new();
    while ws.len() < col_count
        invariant
            ws.len() <= col_count,
            forall|c: int| 0 <= c < ws.len() ==> ws@[c] == 0,
        decreases col_count - ws.len(),
    {
        ws.push(0);
    }
    let mut r: usize = 0;
    while r < parsed.len()
        invariant
            r <= parsed.len(),
            views2(parsed@) == p,
            col_count == max_cols(p),
            ws.len() == col_count,
            forall|i: int| 0 <= i < p.len() ==> (#[trigger] p[i]).len() <= max_cols(p),
            forall|c: int| 0 <= c < col_count ==> ws@[c] == col_width(p.take(r as int), c),
        decreases parsed.len() - r,
    {
        let row = &parsed[r];
        proof {
            assert(views(row@) == p[r as int]);
            assert(p.take(r + 1).drop_last() == p.take(r as int));
            assert(p.take(r + 1).last() == p[r as int]);
        }
        let mut i: usize = 0;
        while i < row.len()
            invariant
                i <= row.len() <= col_count,
                ws.len() == col_count,
                views(row@) == p[r as int],
                r < p.len(),
                p.take(r + 1).drop_last() == p.take(r as int),
                p.take(r + 1).last() == p[r as int],
                forall|c: int| 0 <= c < i ==> ws@[c] == col_width(p.take(r + 1), c),
                forall|c: int| i <= c < col_count ==> ws@[c] == col_width(p.take(r as int), c),
            decreases row.len() - i,
        {
            let w = display_width(&row[i]);
            proof {
                assert(p[r as int][i as int] == row@[i as int]@);
            }
            if w > ws[i] {
                ws.set(i, w);
            }
            i += 1;
        }
        proof {
            assert forall|c: int| 0 <= c < col_count implies ws@[c] == col_width(p.take(r + 1), c) by {
                if c >= row.len() {
                    assert(!(0 <= c < p.take(r + 1).last().len()));
                }
            }
        }
        r += 1;
    }
    proof {
        assert(p.take(parsed.len() as int) == p);
    }
    // numeric columns
    let mut nums: Vec<bool> = Vec::new();
    let body = parsed.len() > 1;
    while nums.len() < col_count
        invariant
            nums.len() <= col_count,
            forall|c: int| 0 <= c < nums.len() ==> nums@[c] == body,
        decreases col_count - nums.len(),
    {
        nums.push(body);
    }
    let mut r: usize = 1;
    while r < parsed.len()
        invariant
            1 <= r <= parsed.len() || parsed.len() == 0,
            views2(parsed@) == p,
            col_count == max_cols(p),
            nums.len() == col_count,
            body == (p.len() > 1),
            forall|i: int| 0 <= i < p.len() ==> (#[trigger] p[i]).len() <= max_cols(p),
            forall|c: int|
                0 <= c < col_count ==> nums@[c] == (body && forall|q: int|
                    1 <= q < r && 0 <= c < p[q].len() ==> numeric_cell(#[trigger] p[q][c])),
        decreases parsed.len() - r,
    {
        let row = &parsed[r];
        proof {
            assert(views(row@) == p[r as int]);
        }
        let mut i: usize = 0;
        while i < row.len()
            invariant
                i <= row.len() <= col_count,
                nums.len() == col_count,
                views(row@) == p[r as int],
                1 <= r < p.len(),
                forall|c: int|
                    0 <= c < i ==> nums@[c] == (body && forall|q: int|
                        1 <= q < r + 1 && 0 <= c < p[q].len() ==> numeric_cell(#[trigger] p[q][c])),
                forall|c: int|
                    i <= c < col_count ==> nums@[c] == (body && forall|q: int|
                        1 <= q < r && 0 <= c < p[q].len() ==> numeric_cell(#[trigger] p[q][c])),
            decreases row.len() - i,
        {
            let cell = &row[i];
            proof {
                assert(p[r as int][i as int] == cell@);
            }
            let ok = cell.len() == 0 || is_numeric(cell);
            if !ok {
                nums.set(i, false);
            }
            proof {
                let c = i as int;
                assert((forall|q: int|
                    1 <= q < r + 1 && 0 <= c < p[q].len() ==> numeric_cell(#[trigger] p[q][c])) == (
                (forall|q: int|
                    1 <= q < r && 0 <= c < p[q].len() ==> numeric_cell(#[trigger] p[q][c]))
                    && numeric_cell(p[r as int][c])));
            }
            i += 1;
        }
        proof {
            assert forall|c: int| 0 <= c < col_count implies nums@[c] == (body && forall|q: int|
                1 <= q < r + 1 && 0 <= c < p[q].len() ==> numeric_cell(#[trigger] p[q][c])) by {
                if c >= row.len() {
                    assert((forall|q: int|
                        1 <= q < r + 1 && 0 <= c < p[q].len() ==> numeric_cell(#[trigger] p[q][c]))
                        == (forall|q: int|
                        1 <= q < r && 0 <= c < p[q].len() ==> numeric_cell(#[trigger] p[q][c])));
                }
            }
        }
        r += 1;
    }
    let ghost wsv = widths(p);
    let ghost nmv = numerics(p);
    proof {
        assert forall|c: int| 0 <= c < col_count implies nums@[c] == nmv[c] by {
            if parsed.len() > 1 {
                assert(r == parsed.len());
            }
        }
    }
    // rendering
    let mut result: Vec<Vec<char>> = Vec::new();
    let mut r: usize = 0;
    while r < parsed.len()
        invariant
            r <= parsed.len(),
            views2(parsed@) == p,
            col_count == max_cols(p),
            ws.len() == col_count,
            nums.len() == col_count,
            wsv == widths(p),
            nmv == numerics(p),
            forall|i: int| 0 <= i < p.len() ==> (#[trigger] p[i]).len() <= max_cols(p),
            forall|c: int| 0 <= c < col_count ==> ws@[c] == col_width(p, c),
            forall|c: int| 0 <= c < col_count ==> nums@[c] == nmv[c],
            views(result@) == p.take(r as int).map_values(
                |cells: Seq<Seq<char>>| render_row(indent@, cells, wsv, nmv),
            ),
        decreases parsed.len() - r,
    {
        let row = &parsed[r];
        proof {
            assert(views(row@) == p[r as int]);
        }
        let mut line: Vec<char> = Vec::new();
        push_chars(&mut line, indent);
        line.push('|');
        let mut ci: usize = 0;
        while ci < row.len()
            invariant
                ci <= row.len() <= col_count,
                col_count == max_cols(p),
                ws.len() == col_count,
                nums.len() == col_count,
                views(row@) == p[r as int],
                r < p.len(),
                wsv == widths(p),
                nmv == numerics(p),
                forall|c: int| 0 <= c < col_count ==> ws@[c] == col_width(p, c),
                forall|c: int| 0 <= c < col_count ==> nums@[c] == nmv[c],
                line@ == indent@ + seq!['|'] + segs(p[r as int], wsv, nmv, ci as int),
            decreases row.len() - ci,
        {
            let cell = &row[ci];
            let w = ws[ci];
            proof {
                assert(p[r as int][ci as int] == cell@);
                lemma_col_width(p, ci as int);
                assert(cell@.len() <= w);
            }
            let pad = w - display_width(cell);
            let ghost before = line@;
            line.push(' ');
            if nums[ci] {
                push_spaces(&mut line, pad);
                push_chars(&mut line, cell);
            } else {
                push_chars(&mut line, cell);
                push_spaces(&mut line, pad);
            }
            line.push(' ');
            line.push('|');
            proof {
                assert(wsv[ci as int] == w);
                assert(nmv[ci as int] == nums@[ci as int]);
                let pd = spaces((w - cell@.len()) as nat);
                if nums@[ci as int] {
                    assert(line@ =~= before + (seq![' '] + (pd + cell@) + seq![' ', '|']));
                } else {
                    assert(line@ =~= before + (seq![' '] + (cell@ + pd) + seq![' ', '|']));
                }
                assert(line@ == before + cell_seg(cell@, wsv[ci as int], nmv[ci as int]));
            }
            ci += 1;
        }
        proof {
            assert(line@ == render_row(indent@, p[r as int], wsv, nmv));
            assert(p.take(r + 1) == p.take(r as int).push(p[r as int]));
            assert(views(result@.push(line)) == views(result@).push(line@));
        }
        result.push(line);
        r += 1;
    }
    proof {
        assert(p.take(parsed.len() as int) == p);
    }
    result
}

} // verus!
