//! The language server's state and the answers it gives.
//!
//! Go-to-definition on a step call lists the step definitions whose pattern
//! matches the call's text; find-references on a definition lists the calls
//! its pattern matches, and on a call lists every call matched by a
//! definition that matches it. Requests and notifications arrive already
//! decoded (`Query`, `Notice`); reading files and talking the protocol is the
//! caller's part.

use vstd::prelude::*;
use crate::expression::regex_is_match;
use crate::indexer::{
    after_drop, after_scan, call_views, def_views, ext_text, file_extension, paths_equal,
    same_path, CallView, DefView, Index, IndexView, StepCall, StepDef,
};

verus! {

/// A place in a file: a line and a column range on it.
#[derive(Debug)]
pub struct Location {
    pub path: String,
    pub line: u32,
    pub col_start: u32,
    pub col_end: u32,
}

pub struct LocView {
    pub path: Seq<char>,
    pub line: u32,
    pub col_start: u32,
    pub col_end: u32,
}

impl View for Location {
    type V = LocView;

    open spec fn view(&self) -> LocView {
        LocView { path: self.path@, line: self.line, col_start: self.col_start, col_end: self.col_end }
    }
}

pub open spec fn loc_views(v: Seq<Location>) -> Seq<LocView> {
    v.map_values(|l: Location| l@)
}

pub open spec fn def_location(d: DefView) -> LocView {
    LocView { path: d.path, line: d.line, col_start: d.col_start, col_end: d.col_end }
}

pub open spec fn call_location(c: CallView) -> LocView {
    LocView { path: c.path, line: c.line, col_start: c.col_start, col_end: c.col_end }
}

/// The first step call at or after `i` on line `line` of the file `p`
/// (the length when there is none).
pub open spec fn call_at_from(cs: Seq<CallView>, p: Seq<char>, line: u32, i: int) -> int
    decreases cs.len() - i,
{
    if i < 0 || i >= cs.len() {
        i
    } else if paths_equal(cs[i].path, p) && cs[i].line == line {
        i
    } else {
        call_at_from(cs, p, line, i + 1)
    }
}

/// The first step definition at or after `i` on line `line` of the file `p`
/// (the length when there is none).
pub open spec fn def_at_from(ds: Seq<DefView>, p: Seq<char>, line: u32, i: int) -> int
    decreases ds.len() - i,
{
    if i < 0 || i >= ds.len() {
        i
    } else if paths_equal(ds[i].path, p) && ds[i].line == line {
        i
    } else {
        def_at_from(ds, p, line, i + 1)
    }
}

/// The locations of the definitions whose pattern matches `text`, in order.
pub open spec fn defs_matching(ds: Seq<DefView>, text: Seq<char>) -> Seq<LocView>
    decreases ds.len(),
{
    if ds.len() == 0 {
        Seq::empty()
    } else {
        let prev = defs_matching(ds.drop_last(), text);
        if regex_is_match(ds.last().pattern, text) {
            prev.push(def_location(ds.last()))
        } else {
            prev
        }
    }
}

/// The locations of the calls whose text `pattern` matches, in order.
pub open spec fn calls_matching(cs: Seq<CallView>, pattern: Seq<char>) -> Seq<LocView>
    decreases cs.len(),
{
    if cs.len() == 0 {
        Seq::empty()
    } else {
        let prev = calls_matching(cs.drop_last(), pattern);
        if regex_is_match(pattern, cs.last().text) {
            prev.push(call_location(cs.last()))
        } else {
            prev
        }
    }
}

/// The locations of the definitions whose flag in `flags` is set, in order.
pub open spec fn selected_defs(ds: Seq<DefView>, flags: Seq<bool>) -> Seq<LocView>
    decreases ds.len(),
{
    if ds.len() == 0 {
        Seq::empty()
    } else {
        let prev = selected_defs(ds.drop_last(), flags);
        if flags[ds.len() - 1] {
            prev.push(def_location(ds.last()))
        } else {
            prev
        }
    }
}

/// The locations of the calls whose flag in `flags` is set, in order.
pub open spec fn selected_calls(cs: Seq<CallView>, flags: Seq<bool>) -> Seq<LocView>
    decreases cs.len(),
{
    if cs.len() == 0 {
        Seq::empty()
    } else {
        let prev = selected_calls(cs.drop_last(), flags);
        if flags[cs.len() - 1] {
            prev.push(call_location(cs.last()))
        } else {
            prev
        }
    }
}

pub proof fn lemma_selected_defs(ds: Seq<DefView>, text: Seq<char>, flags: Seq<bool>)
    requires
        flags.len() >= ds.len(),
        forall|k: int| 0 <= k < ds.len() ==> flags[k] == regex_is_match(#[trigger] ds[k].pattern, text),
    ensures
        selected_defs(ds, flags) == defs_matching(ds, text),
    decreases ds.len(),
{
    if ds.len() > 0 {
        assert forall|k: int| 0 <= k < ds.drop_last().len() implies flags[k] == regex_is_match(
            #[trigger] ds.drop_last()[k].pattern,
            text,
        ) by {
            assert(ds.drop_last()[k] == ds[k]);
        }
        lemma_selected_defs(ds.drop_last(), text, flags);
        assert(ds.last() == ds[ds.len() - 1]);
    }
}

pub proof fn lemma_selected_calls(cs: Seq<CallView>, pattern: Seq<char>, flags: Seq<bool>)
    requires
        flags.len() >= cs.len(),
        forall|k: int| 0 <= k < cs.len() ==> flags[k] == regex_is_match(pattern, #[trigger] cs[k].text),
    ensures
        selected_calls(cs, flags) == calls_matching(cs, pattern),
    decreases cs.len(),
{
    if cs.len() > 0 {
        assert forall|k: int| 0 <= k < cs.drop_last().len() implies flags[k] == regex_is_match(
            pattern,
            #[trigger] cs.drop_last()[k].text,
        ) by {
            assert(cs.drop_last()[k] == cs[k]);
        }
        lemma_selected_calls(cs.drop_last(), pattern, flags);
        assert(cs.last() == cs[cs.len() - 1]);
    }
}

/// For every definition that matches `text`, the calls it matches.
pub open spec fn sibling_calls(ds: Seq<DefView>, cs: Seq<CallView>, text: Seq<char>) -> Seq<LocView>
    decreases ds.len(),
{
    if ds.len() == 0 {
        Seq::empty()
    } else {
        let prev = sibling_calls(ds.drop_last(), cs, text);
        if regex_is_match(ds.last().pattern, text) {
            prev + calls_matching(cs, ds.last().pattern)
        } else {
            prev
        }
    }
}

/// Go-to-definition from line `line` of the file `p`.
pub open spec fn definitions_of(v: IndexView, p: Seq<char>, line: u32) -> Seq<LocView> {
    let k = call_at_from(v.calls, p, line, 0);
    if k < v.calls.len() {
        defs_matching(v.defs, v.calls[k].text)
    } else {
        Seq::empty()
    }
}

/// Find-references from line `line` of the file `p`.
pub open spec fn references_of(v: IndexView, p: Seq<char>, line: u32) -> Seq<LocView> {
    let dk = def_at_from(v.defs, p, line, 0);
    if dk < v.defs.len() {
        calls_matching(v.calls, v.defs[dk].pattern)
    } else {
        let ck = call_at_from(v.calls, p, line, 0);
        if ck < v.calls.len() {
            sibling_calls(v.defs, v.calls, v.calls[ck].text)
        } else {
            Seq::empty()
        }
    }
}

/// Open documents: for each URI its latest text (a later entry for the
/// same URI wins).
pub open spec fn buffer_map(b: Seq<(String, String)>) -> Map<Seq<char>, Seq<char>>
    decreases b.len(),
{
    if b.len() == 0 {
        Map::empty()
    } else {
        buffer_map(b.drop_last()).insert(b.last().0@, b.last().1@)
    }
}

/// The entries of `b` for URIs other than `uri`.
pub open spec fn without_key(b: Seq<(String, String)>, uri: Seq<char>) -> Seq<(String, String)>
    decreases b.len(),
{
    if b.len() == 0 {
        Seq::empty()
    } else {
        let prev = without_key(b.drop_last(), uri);
        if b.last().0@ == uri {
            prev
        } else {
            prev.push(b.last())
        }
    }
}

pub proof fn lemma_without_key(b: Seq<(String, String)>, uri: Seq<char>)
    ensures
        buffer_map(without_key(b, uri)) == buffer_map(b).remove(uri),
    decreases b.len(),
{
    if b.len() > 0 {
        lemma_without_key(b.drop_last(), uri);
        let prev = without_key(b.drop_last(), uri);
        if b.last().0@ != uri {
            assert(prev.push(b.last()).drop_last() == prev);
            assert(buffer_map(b.drop_last()).insert(b.last().0@, b.last().1@).remove(uri)
                =~= buffer_map(b.drop_last()).remove(uri).insert(b.last().0@, b.last().1@));
        } else {
            assert(buffer_map(b.drop_last()).insert(b.last().0@, b.last().1@).remove(uri)
                =~= buffer_map(b.drop_last()).remove(uri));
        }
    } else {
        assert(buffer_map(b).remove(uri) =~= Map::empty());
    }
}

/// The server's state: the step index, the open documents and the
/// workspace roots.
pub struct State {
    pub index: Index,
    pub buffers: Vec<(String, String)>,
    pub roots: Vec<String>,
}

fn def_loc(d: &StepDef) -> (r: Location)
    ensures
        r@ == def_location(d@),
{
    Location { path: d.path.clone(), line: d.line, col_start: d.col_start, col_end: d.col_end }
}

fn call_loc(c: &StepCall) -> (r: Location)
    ensures
        r@ == call_location(c@),
{
    Location { path: c.path.clone(), line: c.line, col_start: c.col_start, col_end: c.col_end }
}

/// The locations of the definitions whose flag is set (one flag per
/// definition, such as whether its pattern matches a step's text), in order.
pub fn select_definitions(defs: &Vec<StepDef>, matched: &Vec<bool>) -> (r: Vec<Location>)
    requires
        matched.len() == defs.len(),
    ensures
        loc_views(r@) == selected_defs(def_views(defs@), matched@),
{
    let ghost dv = def_views(defs@);
    let mut out: Vec<Location> = Vec::new();
    let mut k: usize = 0;
    proof {
        assert(loc_views(out@) =~= Seq::<LocView>::empty());
    }
    while k < defs.len()
        invariant
            k <= defs.len(),
            matched.len() == defs.len(),
            dv == def_views(defs@),
            loc_views(out@) == selected_defs(dv.take(k as int), matched@),
        decreases defs.len() - k,
    {
        proof {
            assert(dv.take(k + 1).drop_last() == dv.take(k as int));
            assert(dv.take(k + 1).last() == defs@[k as int]@);
        }
        if matched[k] {
            let l = def_loc(&defs[k]);
            proof {
                assert(loc_views(out@.push(l)) =~= loc_views(out@).push(l@));
            }
            out.push(l);
        }
        k += 1;
    }
    proof {
        assert(dv.take(defs.len() as int) == dv);
    }
    out
}

/// The locations of the calls whose flag is set (one flag per call, such as
/// whether a definition's pattern matches its text), in order.
pub fn select_calls(calls: &Vec<StepCall>, matched: &Vec<bool>) -> (r: Vec<Location>)
    requires
        matched.len() == calls.len(),
    ensures
        loc_views(r@) == selected_calls(call_views(calls@), matched@),
{
    let ghost cv = call_views(calls@);
    let mut out: Vec<Location> = Vec::new();
    let mut k: usize = 0;
    proof {
        assert(loc_views(out@) =~= Seq::<LocView>::empty());
    }
    while k < calls.len()
        invariant
            k <= calls.len(),
            matched.len() == calls.len(),
            cv == call_views(calls@),
            loc_views(out@) == selected_calls(cv.take(k as int), matched@),
        decreases calls.len() - k,
    {
        proof {
            assert(cv.take(k + 1).drop_last() == cv.take(k as int));
            assert(cv.take(k + 1).last() == calls@[k as int]@);
        }
        if matched[k] {
            let l = call_loc(&calls[k]);
            proof {
                assert(loc_views(out@.push(l)) =~= loc_views(out@).push(l@));
            }
            out.push(l);
        }
        k += 1;
    }
    proof {
        assert(cv.take(calls.len() as int) == cv);
    }
    out
}

impl State {
    pub fn new() -> (r: Self)
        ensures
            r.index@.defs.len() == 0,
            r.index@.calls.len() == 0,
            buffer_map(r.buffers@) == Map::<Seq<char>, Seq<char>>::empty(),
            r.roots@.len() == 0,
    {
        State { index: Index::default(), buffers: Vec::new(), roots: Vec::new() }
    }

    fn find_call(&self, path: &str, line: u32) -> (r: usize)
        ensures
            r == call_at_from(self.index@.calls, path@, line, 0),
            r <= self.index.calls.len(),
    {
        let calls = &self.index.calls;
        let mut k: usize = 0;
        while k < calls.len()
            invariant
                k <= calls.len(),
                calls == &self.index.calls,
                call_at_from(self.index@.calls, path@, line, k as int) == call_at_from(
                    self.index@.calls,
                    path@,
                    line,
                    0,
                ),
            decreases calls.len() - k,
        {
            if same_path(calls[k].path.as_str(), path) && calls[k].line == line {
                return k;
            }
            k += 1;
        }
        k
    }

    fn find_def(&self, path: &str, line: u32) -> (r: usize)
        ensures
            r == def_at_from(self.index@.defs, path@, line, 0),
            r <= self.index.defs.len(),
    {
        let defs = &self.index.defs;
        let mut k: usize = 0;
        while k < defs.len()
            invariant
                k <= defs.len(),
                defs == &self.index.defs,
                def_at_from(self.index@.defs, path@, line, k as int) == def_at_from(
                    self.index@.defs,
                    path@,
                    line,
                    0,
                ),
            decreases defs.len() - k,
        {
            if same_path(defs[k].path.as_str(), path) && defs[k].line == line {
                return k;
            }
            k += 1;
        }
        k
    }

    fn defs_matching_text(&self, text: &str) -> (r: Vec<Location>)
        ensures
            loc_views(r@) == defs_matching(self.index@.defs, text@),
    {
        let defs = &self.index.defs;
        let ghost dv = self.index@.defs;
        let mut flags: Vec<bool> = Vec::new();
        while flags.len() < defs.len()
            invariant
                flags.len() <= defs.len(),
                defs == &self.index.defs,
                dv == self.index@.defs,
                forall|k: int| 0 <= k < flags.len() ==> flags@[k] == regex_is_match(
                    #[trigger] dv[k].pattern,
                    text@,
                ),
            decreases defs.len() - flags.len(),
        {
            let k = flags.len();
            let m = defs[k].regex.is_match(text);
            proof {
                assert(dv[k as int] == defs@[k as int]@);
            }
            flags.push(m);
        }
        proof {
            lemma_selected_defs(dv, text@, flags@);
        }
        select_definitions(defs, &flags)
    }

    fn calls_matching_pattern(&self, pattern: &crate::expression::StepPattern) -> (r: Vec<Location>)
        ensures
            loc_views(r@) == calls_matching(self.index@.calls, pattern@),
    {
        let calls = &self.index.calls;
        let ghost cv = self.index@.calls;
        let mut flags: Vec<bool> = Vec::new();
        while flags.len() < calls.len()
            invariant
                flags.len() <= calls.len(),
                calls == &self.index.calls,
                cv == self.index@.calls,
                forall|k: int| 0 <= k < flags.len() ==> flags@[k] == regex_is_match(
                    pattern@,
                    #[trigger] cv[k].text,
                ),
            decreases calls.len() - flags.len(),
        {
            let k = flags.len();
            let m = pattern.is_match(calls[k].text.as_str());
            proof {
                assert(cv[k as int] == calls@[k as int]@);
            }
            flags.push(m);
        }
        proof {
            lemma_selected_calls(cv, pattern@, flags@);
        }
        select_calls(calls, &flags)
    }

    /// The definitions of the step call on line `line` of the file `path`:
    /// every definition whose pattern matches the call's text.
    pub fn definition(&self, path: &str, line: u32) -> (r: Vec<Location>)
        ensures
            loc_views(r@) == definitions_of(self.index@, path@, line),
    {
        let k = self.find_call(path, line);
        if k == self.index.calls.len() {
            proof {
                assert(loc_views(Seq::<Location>::empty()) =~= Seq::<LocView>::empty());
            }
            return Vec::new();
        }
        self.defs_matching_text(self.index.calls[k].text.as_str())
    }

    /// The references of line `line` of the file `path`: from a definition,
    /// the calls its pattern matches; from a call, the calls matched by every
    /// definition that matches it.
    pub fn references(&self, path: &str, line: u32) -> (r: Vec<Location>)
        ensures
            loc_views(r@) == references_of(self.index@, path@, line),
    {
        let dk = self.find_def(path, line);
        if dk < self.index.defs.len() {
            return self.calls_matching_pattern(&self.index.defs[dk].regex);
        }
        let ck = self.find_call(path, line);
        if ck == self.index.calls.len() {
            proof {
                assert(loc_views(Seq::<Location>::empty()) =~= Seq::<LocView>::empty());
            }
            return Vec::new();
        }
        let text = self.index.calls[ck].text.as_str();
        let defs = &self.index.defs;
        let ghost dv = self.index@.defs;
        let mut out: Vec<Location> = Vec::new();
        let mut k: usize = 0;
        proof {
            assert(loc_views(out@) =~= Seq::<LocView>::empty());
        }
        while k < defs.len()
            invariant
                k <= defs.len(),
                defs == &self.index.defs,
                dv == self.index@.defs,
                text@ == self.index@.calls[ck as int].text,
                loc_views(out@) == sibling_calls(dv.take(k as int), self.index@.calls, text@),
            decreases defs.len() - k,
        {
            proof {
                assert(dv.take(k + 1).drop_last() == dv.take(k as int));
                assert(dv.take(k + 1).last() == defs@[k as int]@);
            }
            if defs[k].regex.is_match(text) {
                let more = self.calls_matching_pattern(&defs[k].regex);
                let ghost before = loc_views(out@);
                let mut j: usize = 0;
                while j < more.len()
                    invariant
                        j <= more.len(),
                        loc_views(out@) == before + loc_views(more@).take(j as int),
                    decreases more.len() - j,
                {
                    let l = Location {
                        path: more[j].path.clone(),
                        line: more[j].line,
                        col_start: more[j].col_start,
                        col_end: more[j].col_end,
                    };
                    proof {
                        assert(loc_views(out@.push(l)) =~= loc_views(out@).push(l@));
                        assert(loc_views(more@).take(j + 1) =~= loc_views(more@).take(j as int).push(
                            l@,
                        ));
                    }
                    out.push(l);
                    j += 1;
                }
                proof {
                    assert(loc_views(more@).take(more.len() as int) == loc_views(more@));
                }
            }
            k += 1;
        }
        proof {
            assert(dv.take(defs.len() as int) == dv);
        }
        out
    }

    /// Re-indexes the file `path` from `content` (an open editor buffer).
    pub fn rescan_with(&mut self, path: &str, content: &str)
        ensures
            final(self).index@ == after_scan(
                after_drop(old(self).index@, path@),
                path@,
                ext_text(file_extension(path@)),
                content@,
            ),
            final(self).buffers@ == old(self).buffers@,
            final(self).roots@ == old(self).roots@,
    {
        self.index.drop_file(path);
        self.index.scan_file(path, content);
    }

    /// Re-indexes the file `path` from its contents on disk, `read` (`None`
    /// when the file could not be read: its entries are then only dropped).
    pub fn rescan_path(&mut self, path: &str, read: Option<String>)
        ensures
            final(self).index@ == match read {
                Some(content) => after_scan(
                    after_drop(old(self).index@, path@),
                    path@,
                    ext_text(file_extension(path@)),
                    content@,
                ),
                None => after_drop(old(self).index@, path@),
            },
            final(self).buffers@ == old(self).buffers@,
            final(self).roots@ == old(self).roots@,
    {
        self.index.drop_file(path);
        match read {
            Some(content) => self.index.scan_file(path, content.as_str()),
            None => {},
        }
    }

    /// Records the workspace roots: the local folders among the workspace
    /// folders when the client sent a folder list (`None` for a folder that
    /// is not a local directory), otherwise the root directory if there is
    /// one.
    pub fn init(&mut self, folders: Option<Vec<Option<String>>>, root: Option<String>)
        ensures
            string_seq(final(self).roots@) == string_seq(old(self).roots@) + match folders {
                Some(fs) => present_paths(fs@),
                None => match root {
                    Some(r) => seq![r@],
                    None => Seq::empty(),
                },
            },
            final(self).index@ == old(self).index@,
            final(self).buffers@ == old(self).buffers@,
    {
        let ghost before = string_seq(self.roots@);
        match folders {
            Some(fs) => {
                let ghost ps = fs@;
                proof {
                    assert(ps.take(0) =~= Seq::<Option<String>>::empty());
                    assert(before + Seq::<Seq<char>>::empty() =~= before);
                }
                for f in it: fs.into_iter()
                    invariant
                        ps == it.seq(),
                        string_seq(self.roots@) == before + present_paths(ps.take(it.index() as int)),
                        self.index@ == old(self).index@,
                        self.buffers@ == old(self).buffers@,
                {
                    proof {
                        let k = it.index() as int;
                        assert(ps.take(k + 1).drop_last() == ps.take(k));
                        assert(ps.take(k + 1).last() == f);
                    }
                    match f {
                        Some(p) => {
                            proof {
                                assert(string_seq(self.roots@.push(p)) =~= string_seq(self.roots@).push(p@));
                            }
                            self.roots.push(p);
                        },
                        None => {},
                    }
                }
                proof {
                    assert(ps.take(ps.len() as int) == ps);
                }
            },
            None => match root {
                Some(r) => {
                    proof {
                        assert(string_seq(self.roots@.push(r)) =~= before + seq![r@]);
                    }
                    self.roots.push(r);
                },
                None => {
                    proof {
                        assert(before + Seq::<Seq<char>>::empty() =~= before);
                    }
                },
            },
        }
    }

    /// Adds the entries of an index built for a workspace root.
    pub fn add_index(&mut self, idx: Index)
        ensures
            final(self).index@.defs == old(self).index@.defs + idx@.defs,
            final(self).index@.calls == old(self).index@.calls + idx@.calls,
            final(self).buffers@ == old(self).buffers@,
            final(self).roots@ == old(self).roots@,
    {
        let Index { defs, calls } = idx;
        let ghost d0 = crate::indexer::def_views(self.index.defs@);
        let ghost dv = crate::indexer::def_views(defs@);
        proof {
            assert(dv.take(0) =~= Seq::<DefView>::empty());
            assert(d0 + Seq::<DefView>::empty() =~= d0);
        }
        for d in it: defs.into_iter()
            invariant
                dv == crate::indexer::def_views(it.seq()),
                self.index@.defs == d0 + dv.take(it.index() as int),
                self.index@.calls == old(self).index@.calls,
                self.buffers@ == old(self).buffers@,
                self.roots@ == old(self).roots@,
        {
            proof {
                let k = it.index() as int;
                assert(dv.take(k + 1) =~= dv.take(k).push(d@));
                assert(crate::indexer::def_views(self.index.defs@.push(d)) =~= crate::indexer::def_views(
                    self.index.defs@,
                ).push(d@));
            }
            self.index.defs.push(d);
        }
        proof {
            assert(dv.take(dv.len() as int) == dv);
        }
        let ghost c0 = crate::indexer::call_views(self.index.calls@);
        let ghost cv = crate::indexer::call_views(calls@);
        proof {
            assert(cv.take(0) =~= Seq::<CallView>::empty());
            assert(c0 + Seq::<CallView>::empty() =~= c0);
        }
        for c in it: calls.into_iter()
            invariant
                cv == crate::indexer::call_views(it.seq()),
                self.index@.calls == c0 + cv.take(it.index() as int),
                self.index@.defs == d0 + dv,
                self.buffers@ == old(self).buffers@,
                self.roots@ == old(self).roots@,
        {
            proof {
                let k = it.index() as int;
                assert(cv.take(k + 1) =~= cv.take(k).push(c@));
                assert(crate::indexer::call_views(self.index.calls@.push(c)) =~= crate::indexer::call_views(
                    self.index.calls@,
                ).push(c@));
            }
            self.index.calls.push(c);
        }
        proof {
            assert(cv.take(cv.len() as int) == cv);
        }
    }

    /// Records `text` as the open document `uri`.
    pub fn set_buffer(&mut self, uri: String, text: String)
        ensures
            buffer_map(final(self).buffers@) == buffer_map(old(self).buffers@).insert(uri@, text@),
            final(self).index@ == old(self).index@,
            final(self).roots@ == old(self).roots@,
    {
        self.remove_buffer(&uri);
        let ghost b = self.buffers@;
        self.buffers.push((uri, text));
        proof {
            assert(self.buffers@.drop_last() == b);
        }
    }

    /// Forgets the open document `uri`.
    pub fn remove_buffer(&mut self, uri: &String)
        ensures
            buffer_map(final(self).buffers@) == buffer_map(old(self).buffers@).remove(uri@),
            final(self).index@ == old(self).index@,
            final(self).roots@ == old(self).roots@,
    {
        let mut old_buffers: Vec<(String, String)> = Vec::new();
        std::mem::swap(&mut old_buffers, &mut self.buffers);
        let ghost ob = old_buffers@;
        proof {
            assert(ob.take(0) =~= Seq::<(String, String)>::empty());
            assert(self.buffers@ =~= Seq::<(String, String)>::empty());
        }
        for entry in it: old_buffers.into_iter()
            invariant
                ob == it.seq(),
                ob == old(self).buffers@,
                self.index@ == old(self).index@,
                self.roots@ == old(self).roots@,
                self.buffers@ == without_key(ob.take(it.index() as int), uri@),
        {
            proof {
                let k = it.index() as int;
                assert(ob.take(k + 1).drop_last() == ob.take(k));
                assert(ob.take(k + 1).last() == entry);
            }
            if !(entry.0 == *uri) {
                self.buffers.push(entry);
            }
        }
        proof {
            assert(ob.take(ob.len() as int) == ob);
            lemma_without_key(ob, uri@);
        }
    }

    /// Answers a decoded request (see `reply_for`).
    pub fn answer(&self, q: &Query) -> (r: Reply)
        ensures
            reply_view(&r) == reply_for(self.index@, q@),
    {
        match q {
            Query::Definition { path, line } => {
                let locs = match path {
                    Some(p) => self.definition(p.as_str(), *line),
                    None => Vec::new(),
                };
                proof {
                    assert(loc_views(Seq::<Location>::empty()) =~= Seq::<LocView>::empty());
                }
                if locs.len() == 0 {
                    Reply::Null
                } else {
                    Reply::Locations(locs)
                }
            },
            Query::References { path, line } => {
                let locs = match path {
                    Some(p) => self.references(p.as_str(), *line),
                    None => Vec::new(),
                };
                proof {
                    assert(loc_views(Seq::<Location>::empty()) =~= Seq::<LocView>::empty());
                }
                Reply::Locations(locs)
            },
            Query::Other => Reply::Null,
        }
    }

    /// Applies a decoded notification; returns the files whose contents must
    /// be read from disk and handed to `rescan_path`, in order.
    pub fn on_notice(&mut self, n: Notice) -> (r: Vec<String>)
        ensures
            match n {
                Notice::Opened { uri, path, text } => match path {
                    Some(p) => {
                        &&& buffer_map(final(self).buffers@) == buffer_map(old(self).buffers@).insert(
                            uri@,
                            text@,
                        )
                        &&& final(self).index@ == after_scan(
                            after_drop(old(self).index@, p@),
                            p@,
                            ext_text(file_extension(p@)),
                            text@,
                        )
                    },
                    None => final(self).buffers@ == old(self).buffers@ && final(self).index@ == old(
                        self,
                    ).index@,
                },
                Notice::Changed { uri, path, change } => match (path, change) {
                    (Some(p), Some(t)) => {
                        &&& buffer_map(final(self).buffers@) == buffer_map(old(self).buffers@).insert(
                            uri@,
                            t@,
                        )
                        &&& final(self).index@ == after_scan(
                            after_drop(old(self).index@, p@),
                            p@,
                            ext_text(file_extension(p@)),
                            t@,
                        )
                    },
                    _ => final(self).buffers@ == old(self).buffers@ && final(self).index@ == old(
                        self,
                    ).index@,
                },
                Notice::Closed { uri } => {
                    &&& buffer_map(final(self).buffers@) == buffer_map(old(self).buffers@).remove(uri@)
                    &&& final(self).index@ == old(self).index@
                },
                _ => final(self).buffers@ == old(self).buffers@ && final(self).index@ == old(
                    self,
                ).index@,
            },
            final(self).roots@ == old(self).roots@,
            r@.map_values(|s: String| s@) == files_to_reread(n),
    {
        let ghost n0 = n;
        match n {
            Notice::Opened { uri, path, text } => {
                match path {
                    Some(p) => {
                        self.rescan_with(p.as_str(), text.as_str());
                        self.set_buffer(uri, text);
                    },
                    None => {},
                }
                proof {
                    assert(Seq::<String>::empty().map_values(|s: String| s@) =~= Seq::<Seq<char>>::empty());
                }
                Vec::new()
            },
            Notice::Changed { uri, path, change } => {
                match (path, change) {
                    (Some(p), Some(t)) => {
                        self.rescan_with(p.as_str(), t.as_str());
                        self.set_buffer(uri, t);
                    },
                    _ => {},
                }
                proof {
                    assert(Seq::<String>::empty().map_values(|s: String| s@) =~= Seq::<Seq<char>>::empty());
                }
                Vec::new()
            },
            Notice::Saved { path } => {
                let mut r: Vec<String> = Vec::new();
                match path {
                    Some(p) => {
                        r.push(p);
                    },
                    None => {},
                }
                proof {
                    assert(r@.map_values(|s: String| s@) =~= files_to_reread(n0));
                }
                r
            },
            Notice::Closed { uri } => {
                self.remove_buffer(&uri);
                proof {
                    assert(Seq::<String>::empty().map_values(|s: String| s@) =~= Seq::<Seq<char>>::empty());
                }
                Vec::new()
            },
            Notice::WatchedFilesChanged { paths } => {
                let ghost ps = paths@;
                let mut r: Vec<String> = Vec::new();
                proof {
                    assert(ps.take(0) =~= Seq::<Option<String>>::empty());
                    assert(r@.map_values(|s: String| s@) =~= Seq::<Seq<char>>::empty());
                }
                for p in it: paths.into_iter()
                    invariant
                        ps == it.seq(),
                        r@.map_values(|s: String| s@) == present_paths(ps.take(it.index() as int)),
                {
                    proof {
                        let k = it.index() as int;
                        assert(ps.take(k + 1).drop_last() == ps.take(k));
                        assert(ps.take(k + 1).last() == p);
                    }
                    match p {
                        Some(x) => {
                            proof {
                                assert(r@.push(x).map_values(|s: String| s@) =~= r@.map_values(
                                    |s: String| s@,
                                ).push(x@));
                            }
                            r.push(x);
                        },
                        None => {},
                    }
                }
                proof {
                    assert(ps.take(ps.len() as int) == ps);
                }
                r
            },
            Notice::Other => {
                proof {
                    assert(Seq::<String>::empty().map_values(|s: String| s@) =~= Seq::<Seq<char>>::empty());
                }
                Vec::new()
            },
        }
    }
}

/// A decoded request: go-to-definition or find-references at a line of a
/// file (`None` when the document is not a local file), or anything else.
pub enum Query {
    Definition { path: Option<String>, line: u32 },
    References { path: Option<String>, line: u32 },
    Other,
}

pub enum QueryView {
    Definition { path: Option<Seq<char>>, line: u32 },
    References { path: Option<Seq<char>>, line: u32 },
    Other,
}

pub open spec fn opt_view(p: Option<String>) -> Option<Seq<char>> {
    match p {
        Some(s) => Some(s@),
        None => None,
    }
}

impl View for Query {
    type V = QueryView;

    open spec fn view(&self) -> QueryView {
        match self {
            Query::Definition { path, line } => QueryView::Definition { path: opt_view(*path), line: *line },
            Query::References { path, line } => QueryView::References { path: opt_view(*path), line: *line },
            Query::Other => QueryView::Other,
        }
    }
}

/// The answer to a request: `null`, or a list of locations.
pub enum Reply {
    Null,
    Locations(Vec<Location>),
}

pub open spec fn reply_view(r: &Reply) -> Option<Seq<LocView>> {
    match r {
        Reply::Null => None,
        Reply::Locations(v) => Some(loc_views(v@)),
    }
}

/// The answer owed to a request (`None` standing for `null`): definitions
/// when there are any, references always as a list, `null` otherwise.
pub open spec fn reply_for(v: IndexView, q: QueryView) -> Option<Seq<LocView>> {
    match q {
        QueryView::Definition { path, line } => {
            let locs = match path {
                Some(p) => definitions_of(v, p, line),
                None => Seq::empty(),
            };
            if locs.len() == 0 {
                None
            } else {
                Some(locs)
            }
        },
        QueryView::References { path, line } => Some(
            match path {
                Some(p) => references_of(v, p, line),
                None => Seq::empty(),
            },
        ),
        QueryView::Other => None,
    }
}

/// A decoded notification. `path` is the local file of the document
/// (`None` when it is not one); `Changed` carries the first content change.
pub enum Notice {
    Opened { uri: String, path: Option<String>, text: String },
    Changed { uri: String, path: Option<String>, change: Option<String> },
    Saved { path: Option<String> },
    Closed { uri: String },
    WatchedFilesChanged { paths: Vec<Option<String>> },
    Other,
}

/// The paths present in `ps`, in order.
pub open spec fn present_paths(ps: Seq<Option<String>>) -> Seq<Seq<char>>
    decreases ps.len(),
{
    if ps.len() == 0 {
        Seq::empty()
    } else {
        let prev = present_paths(ps.drop_last());
        match ps.last() {
            Some(p) => prev.push(p@),
            None => prev,
        }
    }
}

/// The files that a notification asks to re-read from disk.
pub open spec fn files_to_reread(n: Notice) -> Seq<Seq<char>> {
    match n {
        Notice::Saved { path } => match path {
            Some(p) => seq![p@],
            None => Seq::empty(),
        },
        Notice::WatchedFilesChanged { paths } => present_paths(paths@),
        _ => Seq::empty(),
    }
}

pub open spec fn string_seq(v: Seq<String>) -> Seq<Seq<char>> {
    v.map_values(|s: String| s@)
}

} // verus!
