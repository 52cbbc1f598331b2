//! Character-level text utilities shared by the formatter and the indexer.
//!
//! Text is handled as sequences of `char`; `is_ws` is the Unicode
//! `White_Space` property, which is what `str::trim`, `char::is_whitespace`
//! and the `\s` class of regular expressions use.

use vstd::prelude::*;
use vstd::string::StrSliceExecFns;

verus! {

/// The Unicode `White_Space` property.
pub open spec fn is_ws(c: char) -> bool {
    let u = c as u32;
    ||| 0x9 <= u <= 0xD
    ||| u == 0x20
    ||| u == 0x85
    ||| u == 0xA0
    ||| u == 0x1680
    ||| 0x2000 <= u <= 0x200A
    ||| u == 0x2028
    ||| u == 0x2029
    ||| u == 0x202F
    ||| u == 0x205F
    ||| u == 0x3000
}

pub fn is_whitespace(c: char) -> (r: bool)
    ensures
        r == is_ws(c),
{
    let u = c as u32;
    (0x9 <= u && u <= 0xD) || u == 0x20 || u == 0x85 || u == 0xA0 || u == 0x1680 || (0x2000 <= u
        && u <= 0x200A) || u == 0x2028 || u == 0x2029 || u == 0x202F || u == 0x205F || u == 0x3000
}

/// First index at or after `i` that does not hold whitespace (or the length).
pub open spec fn skip_ws(s: Seq<char>, i: int) -> int
    decreases s.len() - i,
{
    if i < 0 || i >= s.len() {
        i
    } else if is_ws(s[i]) {
        skip_ws(s, i + 1)
    } else {
        i
    }
}

/// First index at or after `i` that holds whitespace (or the length).
pub open spec fn skip_non_ws(s: Seq<char>, i: int) -> int
    decreases s.len() - i,
{
    if i < 0 || i >= s.len() {
        i
    } else if !is_ws(s[i]) {
        skip_non_ws(s, i + 1)
    } else {
        i
    }
}

/// End of `s.take(i)` once trailing whitespace is removed.
pub open spec fn trail_end(s: Seq<char>, i: int) -> int
    decreases i,
{
    if i <= 0 || i > s.len() {
        i
    } else if is_ws(s[i - 1]) {
        trail_end(s, i - 1)
    } else {
        i
    }
}

pub open spec fn trim_start(s: Seq<char>) -> Seq<char> {
    s.skip(skip_ws(s, 0))
}

pub open spec fn trim_end(s: Seq<char>) -> Seq<char> {
    s.take(trail_end(s, s.len() as int))
}

pub open spec fn trim(s: Seq<char>) -> Seq<char> {
    trim_end(trim_start(s))
}

pub open spec fn has_prefix(s: Seq<char>, p: Seq<char>) -> bool {
    p.len() <= s.len() && s.take(p.len() as int) == p
}

pub open spec fn spaces(n: nat) -> Seq<char> {
    Seq::new(n, |_i: int| ' ')
}

pub proof fn lemma_skip_ws(s: Seq<char>, i: int)
    requires
        0 <= i <= s.len(),
    ensures
        i <= skip_ws(s, i) <= s.len(),
        forall|k: int| i <= k < skip_ws(s, i) ==> is_ws(#[trigger] s[k]),
        skip_ws(s, i) < s.len() ==> !is_ws(s[skip_ws(s, i)]),
    decreases s.len() - i,
{
    if i < s.len() && is_ws(s[i]) {
        lemma_skip_ws(s, i + 1);
    }
}

pub proof fn lemma_skip_non_ws(s: Seq<char>, i: int)
    requires
        0 <= i <= s.len(),
    ensures
        i <= skip_non_ws(s, i) <= s.len(),
        forall|k: int| i <= k < skip_non_ws(s, i) ==> !is_ws(#[trigger] s[k]),
        skip_non_ws(s, i) < s.len() ==> is_ws(s[skip_non_ws(s, i)]),
    decreases s.len() - i,
{
    if i < s.len() && !is_ws(s[i]) {
        lemma_skip_non_ws(s, i + 1);
    }
}

pub proof fn lemma_trail_end(s: Seq<char>, i: int)
    requires
        0 <= i <= s.len(),
    ensures
        0 <= trail_end(s, i) <= i,
        forall|k: int| trail_end(s, i) <= k < i ==> is_ws(#[trigger] s[k]),
        trail_end(s, i) > 0 ==> !is_ws(s[trail_end(s, i) - 1]),
    decreases i,
{
    if i > 0 && is_ws(s[i - 1]) {
        lemma_trail_end(s, i - 1);
    }
}

/// Index of the first non-whitespace character at or after `i`.
pub fn skip_ws_from(s: &Vec<char>, i: usize) -> (r: usize)
    requires
        i <= s.len(),
    ensures
        r == skip_ws(s@, i as int),
        i <= r <= s.len(),
{
    let mut j = i;
    while j < s.len() && is_whitespace(s[j])
        invariant
            i <= j <= s.len(),
            skip_ws(s@, j as int) == skip_ws(s@, i as int),
        decreases s.len() - j,
    {
        j += 1;
    }
    j
}

/// Index of the first whitespace character at or after `i`.
pub fn skip_non_ws_from(s: &Vec<char>, i: usize) -> (r: usize)
    requires
        i <= s.len(),
    ensures
        r == skip_non_ws(s@, i as int),
        i <= r <= s.len(),
{
    let mut j = i;
    while j < s.len() && !is_whitespace(s[j])
        invariant
            i <= j <= s.len(),
            skip_non_ws(s@, j as int) == skip_non_ws(s@, i as int),
        decreases s.len() - j,
    {
        j += 1;
    }
    j
}

/// End of `s[..i]` with trailing whitespace removed.
pub fn trail_end_from(s: &Vec<char>, i: usize) -> (r: usize)
    requires
        i <= s.len(),
    ensures
        r == trail_end(s@, i as int),
        r <= i,
{
    let mut j = i;
    while j > 0 && is_whitespace(s[j - 1])
        invariant
            j <= i <= s.len(),
            trail_end(s@, j as int) == trail_end(s@, i as int),
        decreases j,
    {
        j -= 1;
    }
    j
}

/// The characters `s[a..b]`.
pub fn slice(s: &Vec<char>, a: usize, b: usize) -> (r: Vec<char>)
    requires
        a <= b <= s.len(),
    ensures
        r@ == s@.subrange(a as int, b as int),
{
    let mut r: Vec<char> = Vec::new();
    let mut k = a;
    while k < b
        invariant
            a <= k <= b <= s.len(),
            r@ == s@.subrange(a as int, k as int),
        decreases b - k,
    {
        r.push(s[k]);
        k += 1;
    }
    r
}

pub fn trim_start_chars(s: &Vec<char>) -> (r: Vec<char>)
    ensures
        r@ == trim_start(s@),
{
    proof {
        lemma_skip_ws(s@, 0);
    }
    let a = skip_ws_from(s, 0);
    slice(s, a, s.len())
}

pub fn trim_end_chars(s: &Vec<char>) -> (r: Vec<char>)
    ensures
        r@ == trim_end(s@),
{
    let b = trail_end_from(s, s.len());
    slice(s, 0, b)
}

pub fn trim_chars(s: &Vec<char>) -> (r: Vec<char>)
    ensures
        r@ == trim(s@),
{
    let t = trim_start_chars(s);
    trim_end_chars(&t)
}

/// Appends the characters of `lit` to `out`.
pub fn push_str(out: &mut Vec<char>, lit: &str)
    ensures
        final(out)@ == old(out)@ + lit@,
{
    let n = lit.unicode_len();
    let mut k: usize = 0;
    while k < n
        invariant
            n == lit@.len(),
            k <= n,
            out@ == old(out)@ + lit@.take(k as int),
        decreases n - k,
    {
        out.push(lit.get_char(k));
        proof {
            assert(lit@.take(k + 1) == lit@.take(k as int).push(lit@[k as int]));
        }
        k += 1;
    }
    proof {
        assert(lit@.take(n as int) == lit@);
    }
}

/// Appends the characters of `more` to `out`.
pub fn push_chars(out: &mut Vec<char>, more: &Vec<char>)
    ensures
        final(out)@ == old(out)@ + more@,
{
    let mut k: usize = 0;
    while k < more.len()
        invariant
            k <= more.len(),
            out@ == old(out)@ + more@.take(k as int),
        decreases more.len() - k,
    {
        out.push(more[k]);
        proof {
            assert(more@.take(k + 1) == more@.take(k as int).push(more@[k as int]));
        }
        k += 1;
    }
    proof {
        assert(more@.take(more.len() as int) == more@);
    }
}

/// Appends `n` spaces to `out`.
pub fn push_spaces(out: &mut Vec<char>, n: usize)
    ensures
        final(out)@ == old(out)@ + spaces(n as nat),
{
    let mut k: usize = 0;
    while k < n
        invariant
            k <= n,
            out@ == old(out)@ + spaces(k as nat),
        decreases n - k,
    {
        out.push(' ');
        proof {
            assert(spaces((k + 1) as nat) == spaces(k as nat).push(' '));
        }
        k += 1;
    }
}

/// Whether `s[i..]` begins with the characters of `lit`.
pub fn has_lit_at(s: &Vec<char>, i: usize, lit: &str) -> (r: bool)
    requires
        i <= s.len(),
    ensures
        r == has_prefix(s@.skip(i as int), lit@),
{
    let n = lit.unicode_len();
    if n > s.len() - i {
        return false;
    }
    let mut k: usize = 0;
    while k < n
        invariant
            n == lit@.len(),
            i + n <= s.len(),
            k <= n,
            forall|j: int| 0 <= j < k ==> s@[i + j] == lit@[j],
        decreases n - k,
    {
        if s[i + k] != lit.get_char(k) {
            proof {
                assert(s@.skip(i as int).take(n as int)[k as int] != lit@[k as int]);
            }
            return false;
        }
        k += 1;
    }
    proof {
        assert(s@.skip(i as int).take(n as int) =~= lit@);
    }
    true
}

/// Whether `s` is exactly the text `lit`.
pub fn eq_lit(s: &Vec<char>, lit: &str) -> (r: bool)
    ensures
        r == (s@ == lit@),
{
    let n = lit.unicode_len();
    if n != s.len() {
        return false;
    }
    let r = has_lit_at(s, 0, lit);
    proof {
        assert(s@.skip(0) == s@);
        assert(s@.take(n as int) == s@);
    }
    r
}

/// The characters of a string slice.
pub fn chars_of(s: &str) -> (r: Vec<char>)
    ensures
        r@ == s@,
{
    broadcast use vstd::string::group_string_axioms;

    let mut r: Vec<char> = Vec::new();
    for c in it: s.chars()
        invariant
            r@ == it.seq().take(it.index() as int),
    {
        r.push(c);
    }
    r
}

/// The pieces of `s` between occurrences of `sep`, as `str::split` gives them.
pub open spec fn split_char(s: Seq<char>, sep: char) -> Seq<Seq<char>>
    decreases s.len(),
{
    if s.len() == 0 {
        seq![Seq::<char>::empty()]
    } else {
        let p = split_char(s.drop_last(), sep);
        if s.last() == sep {
            p.push(Seq::<char>::empty())
        } else {
            p.update(p.len() - 1, p.last().push(s.last()))
        }
    }
}

pub proof fn lemma_split_char_len(s: Seq<char>, sep: char)
    ensures
        split_char(s, sep).len() >= 1,
    decreases s.len(),
{
    if s.len() > 0 {
        lemma_split_char_len(s.drop_last(), sep);
    }
}

/// The views of a sequence of character vectors.
pub open spec fn views(v: Seq<Vec<char>>) -> Seq<Seq<char>> {
    v.map_values(|x: Vec<char>| x@)
}

/// Splits `s` at every `sep`, as `str::split` does.
pub fn split_on(s: &Vec<char>, sep: char) -> (r: Vec<Vec<char>>)
    ensures
        views(r@) == split_char(s@, sep),
{
    let mut done: Vec<Vec<char>> = Vec::new();
    let mut cur: Vec<char> = Vec::new();
    let mut k: usize = 0;
    while k < s.len()
        invariant
            k <= s.len(),
            views(done@).push(cur@) == split_char(s@.take(k as int), sep),
        decreases s.len() - k,
    {
        let c = s[k];
        proof {
            let t = s@.take(k + 1);
            assert(t.drop_last() == s@.take(k as int));
            assert(t.last() == c);
            lemma_split_char_len(s@.take(k as int), sep);
        }
        if c == sep {
            let old_cur = cur;
            proof {
                assert(views(done@.push(old_cur)) == views(done@).push(old_cur@));
            }
            done.push(old_cur);
            cur = Vec::new();
        } else {
            cur.push(c);
            proof {
                let p = split_char(s@.take(k as int), sep);
                assert(views(done@).push(cur@) =~= p.update(p.len() - 1, p.last().push(c)));
            }
        }
        k += 1;
    }
    proof {
        assert(s@.take(s.len() as int) == s@);
        assert(views(done@.push(cur)) == views(done@).push(cur@));
    }
    done.push(cur);
    done
}

/// The string made of the characters of `v`.
///
/// Trusted: calls `String::from_iter` over `char`s, which collects the
/// characters in order.
#[verifier::external_body]
pub(crate) fn string_from_chars(v: &Vec<char>) -> (r: String)
    ensures
        r@ == v@,
{
    v.iter().collect()
}

/// A line without the carriage return that ends it, if any.
pub open spec fn strip_cr(l: Seq<char>) -> Seq<char> {
    if l.len() > 0 && l.last() == '\r' {
        l.drop_last()
    } else {
        l
    }
}

/// The lines of a text as `str::lines` gives them: split at `\n` or
/// `\r\n`, the final line ending optional, a bare `\r` at the very end kept.
pub open spec fn text_lines(s: Seq<char>) -> Seq<Seq<char>> {
    let raw = split_char(s, '\n');
    let done = raw.take(raw.len() - 1).map_values(|l: Seq<char>| strip_cr(l));
    if raw.last().len() == 0 {
        done
    } else {
        done.push(raw.last())
    }
}

/// The lines of a text (see `text_lines`).
pub fn lines_of(s: &Vec<char>) -> (r: Vec<Vec<char>>)
    ensures
        views(r@) == text_lines(s@),
{
    let raw = split_on(s, '\n');
    proof {
        lemma_split_char_len(s@, '\n');
    }
    let ghost rv = views(raw@);
    let n = raw.len();
    let mut r: Vec<Vec<char>> = Vec::new();
    let mut k: usize = 0;
    while k + 1 < n
        invariant
            n == raw.len(),
            n >= 1,
            k + 1 <= n,
            rv == views(raw@),
            views(r@) == rv.take(k as int).map_values(|l: Seq<char>| strip_cr(l)),
        decreases n - k,
    {
        let l = &raw[k];
        let m = l.len();
        let piece = if m > 0 && l[m - 1] == '\r' {
            slice(l, 0, m - 1)
        } else {
            slice(l, 0, m)
        };
        proof {
            assert(rv[k as int] == l@);
            assert(l@.subrange(0, m as int) == l@);
            assert(piece@ == strip_cr(l@));
            assert(views(r@.push(piece)) =~= views(r@).push(piece@));
            assert(rv.take(k + 1).map_values(|l: Seq<char>| strip_cr(l)) =~= rv.take(
                k as int,
            ).map_values(|l: Seq<char>| strip_cr(l)).push(strip_cr(rv[k as int])));
        }
        r.push(piece);
        k += 1;
    }
    let last = &raw[n - 1];
    if last.len() > 0 {
        let piece = slice(last, 0, last.len());
        proof {
            assert(last@.subrange(0, last@.len() as int) == last@);
            assert(views(r@.push(piece)) =~= views(r@).push(piece@));
        }
        r.push(piece);
    }
    r
}

/// The number of bytes that the UTF-8 encoding of `c` takes.
pub open spec fn utf8_len(c: char) -> nat {
    let u = c as u32;
    if u < 0x80 {
        1
    } else if u < 0x800 {
        2
    } else if u < 0x10000 {
        3
    } else {
        4
    }
}

/// The length in bytes of the UTF-8 encoding of `s`.
pub open spec fn byte_len(s: Seq<char>) -> nat
    decreases s.len(),
{
    if s.len() == 0 {
        0
    } else {
        byte_len(s.drop_last()) + utf8_len(s.last())
    }
}

/// The byte offset of character `k` of `s`, truncated to 32 bits as
/// `usize as u32` does.
pub fn byte_offset_u32(s: &Vec<char>, k: usize) -> (r: u32)
    requires
        k <= s.len(),
    ensures
        r == byte_len(s@.take(k as int)) as u32,
{
    let mut acc: u128 = 0;
    let mut j: usize = 0;
    while j < k
        invariant
            j <= k <= s.len(),
            acc == byte_len(s@.take(j as int)),
            acc <= 4 * j,
        decreases k - j,
    {
        let c = s[j];
        let u = c as u32;
        let w: u128 = if u < 0x80 {
            1
        } else if u < 0x800 {
            2
        } else if u < 0x10000 {
            3
        } else {
            4
        };
        proof {
            assert(s@.take(j + 1).drop_last() == s@.take(j as int));
            assert(s@.take(j + 1).last() == c);
        }
        acc = acc + w;
        j += 1;
    }
    acc as u32
}

} // verus!
