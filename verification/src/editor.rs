//! What the language server decides, apart from the protocol itself: which
//! diagnostics a document shows and where (in the UTF-16 code units editors
//! count in), what a hover says and where a definition is, and — since edits
//! are debounced and checked off the request loop — whether a finished check
//! is still the current one for its document.

use vstd::prelude::*;
use crate::diagnostics::{Diag, DiagModel, Severity, diags_view};
use crate::symbols::{Completion, CompletionModel, Hit, HitModel, SymbolIndex, complete, complete_spec, completions_view, resolve, resolve_spec};
use crate::text::{extend_chars, from_chars, lines, str_lines, to_chars, vviews};

verus! {

// ---------------------------------------------------------------------------
// Positions
// ---------------------------------------------------------------------------

/// UTF-16 code units `c` takes: one in the basic multilingual plane, two beyond.
pub open spec fn utf16_width(c: char) -> int {
    if (c as u32) < 0x10000 {
        1
    } else {
        2
    }
}

/// UTF-16 code units of `t`.
pub open spec fn utf16_units(t: Seq<char>) -> int
    decreases t.len(),
{
    if t.len() == 0 {
        0
    } else {
        utf16_units(t.drop_last()) + utf16_width(t.last())
    }
}

/// UTF-16 code units of the first `n` chars of `t` (all of it past its end).
pub open spec fn units_upto(t: Seq<char>, n: int) -> int {
    if n <= 0 {
        0
    } else if n >= t.len() {
        utf16_units(t)
    } else {
        utf16_units(t.take(n))
    }
}

pub open spec fn min_int(a: int, b: int) -> int {
    if a < b {
        a
    } else {
        b
    }
}

pub open spec fn max_int(a: int, b: int) -> int {
    if a > b {
        a
    } else {
        b
    }
}

/// A 1-based char column and char length as a 0-based UTF-16 range on the line,
/// clamped to the line so the end never runs past it; at least one char wide.
/// Without the line's text, the char offsets themselves.
pub open spec fn utf16_range_spec(line: Option<Seq<char>>, col: u32, len: u32) -> (u32, u32) {
    let start: int = if col > 0 {
        col - 1
    } else {
        0
    };
    let span: int = if len > 1 {
        len as int
    } else {
        1
    };
    match line {
        None => (start as u32, (start + span) as u32),
        Some(t) => {
            let total = utf16_units(t);
            let s = min_int(units_upto(t, start), total);
            let e = max_int(min_int(units_upto(t, start + span), total), s);
            (s as u32, e as u32)
        },
    }
}

proof fn lemma_units_step(t: Seq<char>, k: int)
    requires
        0 <= k < t.len(),
    ensures
        utf16_units(t.take(k + 1)) == utf16_units(t.take(k)) + utf16_width(t[k]),
{
    assert(t.take(k + 1).drop_last() =~= t.take(k));
}

proof fn lemma_units_bounds(t: Seq<char>)
    ensures
        t.len() <= utf16_units(t) <= 2 * t.len(),
    decreases t.len(),
{
    if t.len() > 0 {
        lemma_units_bounds(t.drop_last());
    }
}

proof fn lemma_units_monotone(t: Seq<char>, n: int)
    ensures
        0 <= units_upto(t, n) <= utf16_units(t),
    decreases t.len(),
{
    lemma_units_bounds(t);
    if 0 < n < t.len() {
        let u = t.take(n);
        lemma_units_bounds(u);
        lemma_units_prefix(t, n);
    }
}

proof fn lemma_units_prefix(t: Seq<char>, n: int)
    requires
        0 <= n <= t.len(),
    ensures
        utf16_units(t.take(n)) <= utf16_units(t),
    decreases t.len() - n,
{
    if n < t.len() {
        lemma_units_step(t, n);
        lemma_units_prefix(t, n + 1);
    } else {
        assert(t.take(n) =~= t);
    }
}

/// UTF-16 code units of the first `n` chars of `cs`.
fn units_prefix(cs: &[char], n: u64) -> (r: u32)
    requires
        cs@.len() < 0x8000_0000,
    ensures
        r as int == units_upto(cs@, n as int),
{
    let stop: usize = if n < cs.len() as u64 { n as usize } else { cs.len() };
    let mut i: usize = 0;
    let mut acc: u32 = 0;
    proof {
        assert(cs@.take(0) =~= Seq::<char>::empty());
    }
    while i < stop
        invariant
            0 <= i <= stop <= cs@.len() < 0x8000_0000,
            acc as int == utf16_units(cs@.take(i as int)),
        decreases stop - i,
    {
        proof {
            lemma_units_step(cs@, i as int);
            lemma_units_bounds(cs@.take(i + 1));
        }
        if (cs[i] as u32) < 0x10000 {
            acc = acc + 1;
        } else {
            acc = acc + 2;
        }
        i = i + 1;
    }
    proof {
        if stop == cs.len() {
            assert(cs@.take(stop as int) =~= cs@);
        }
    }
    acc
}

/// Convert a 1-based *char* column and *char* length (what a [`Diag`] carries)
/// into a UTF-16 code-unit range on the line — the encoding editor positions
/// use — clamped to the line. For ASCII this is the identity; it only matters
/// when a character beyond the basic multilingual plane precedes the token.
pub fn utf16_range(line_text: Option<&str>, col: u32, len: u32) -> (r: (u32, u32))
    requires
        line_text matches Some(t) ==> t@.len() < 0x8000_0000,
    ensures
        r == utf16_range_spec(
            match line_text {
                Some(t) => Some(t@),
                None => None,
            },
            col,
            len,
        ),
{
    let start: u64 = if col > 0 { (col - 1) as u64 } else { 0 };
    let span: u64 = if len > 1 { len as u64 } else { 1 };
    match line_text {
        None => (start as u32, #[verifier::truncate] ((start + span) as u32)),
        Some(t) => {
            let cs = to_chars(t);
            proof {
                lemma_units_bounds(cs@);
                lemma_units_monotone(cs@, start as int);
                lemma_units_monotone(cs@, (start + span) as int);
            }
            let total = units_prefix(cs.as_slice(), cs.len() as u64);
            let a = units_prefix(cs.as_slice(), start);
            let s = if a < total { a } else { total };
            let b = units_prefix(cs.as_slice(), start + span);
            let bm = if b < total { b } else { total };
            let e = if bm > s { bm } else { s };
            (s, e)
        },
    }
}

// ---------------------------------------------------------------------------
// Diagnostics as an editor shows them
// ---------------------------------------------------------------------------

/// A diagnostic placed for an editor: 0-based line, UTF-16 start and end on it.
#[derive(Debug)]
pub struct EditorDiag {
    pub line: u32,
    pub start: u32,
    pub end: u32,
    pub severity: Severity,
    /// `glslint/` and the stage that emitted it.
    pub source: String,
    pub message: String,
}

pub struct EditorDiagModel {
    pub line: u32,
    pub start: u32,
    pub end: u32,
    pub severity: Severity,
    pub source: Seq<char>,
    pub message: Seq<char>,
}

impl View for EditorDiag {
    type V = EditorDiagModel;

    open spec fn view(&self) -> EditorDiagModel {
        EditorDiagModel {
            line: self.line,
            start: self.start,
            end: self.end,
            severity: self.severity,
            source: self.source@,
            message: self.message@,
        }
    }
}

pub open spec fn editor_diags_view(v: Seq<EditorDiag>) -> Seq<EditorDiagModel> {
    v.map_values(|d: EditorDiag| d@)
}

/// 0-based line `i` of `text`, when it has one.
pub open spec fn nth_line(text: Seq<char>, i: int) -> Option<Seq<char>> {
    if 0 <= i < lines(text).len() {
        Some(lines(text)[i])
    } else {
        None
    }
}

/// `d` placed on `line_text`, the text of its line.
pub open spec fn editor_diag_spec(d: DiagModel, line_text: Option<Seq<char>>) -> EditorDiagModel {
    let (start, end) = utf16_range_spec(line_text, d.col, d.len);
    EditorDiagModel {
        line: if d.line > 0 {
            (d.line - 1) as u32
        } else {
            0
        },
        start,
        end,
        severity: d.severity,
        source: "glslint/"@ + d.source,
        message: d.message,
    }
}

/// The diagnostics of `path` among `ds`, in order, each placed on its line of
/// `text` (the document's current contents).
pub open spec fn document_diags_spec(ds: Seq<DiagModel>, path: Seq<char>, text: Seq<char>) -> Seq<EditorDiagModel>
    decreases ds.len(),
{
    if ds.len() == 0 {
        seq![]
    } else {
        let prev = document_diags_spec(ds.drop_last(), path, text);
        let d = ds.last();
        if crate::path::same_file(d.path, path) {
            prev.push(editor_diag_spec(d, nth_line(text, if d.line > 0 { d.line - 1 } else { 0 })))
        } else {
            prev
        }
    }
}

/// The diagnostics a document shows: only those belonging to it (errors that
/// map into an injected module surface when that file is opened), placed on
/// its current text.
pub fn document_diagnostics(diags: &Vec<Diag>, path: &str, text: &str) -> (r: Vec<EditorDiag>)
    requires
        forall|k: int| 0 <= k < lines(text@).len() ==> (#[trigger] lines(text@)[k]).len() < 0x8000_0000,
    ensures
        editor_diags_view(r@) == document_diags_spec(diags_view(diags@), path@, text@),
{
    let ls = str_lines(text);
    let ghost lv = vviews(ls@);
    let ghost dv = diags_view(diags@);
    let pc = to_chars(path);
    let mut out: Vec<EditorDiag> = Vec::new();
    let mut i: usize = 0;
    proof {
        assert(editor_diags_view(out@) =~= document_diags_spec(dv.take(0), path@, text@));
    }
    while i < diags.len()
        invariant
            0 <= i <= diags.len(),
            dv == diags_view(diags@),
            lv == vviews(ls@),
            lv == lines(text@),
            pc@ == path@,
            forall|k: int| 0 <= k < lines(text@).len() ==> (#[trigger] lines(text@)[k]).len() < 0x8000_0000,
            editor_diags_view(out@) == document_diags_spec(dv.take(i as int), path@, text@),
        decreases diags.len() - i,
    {
        let d = &diags[i];
        proof {
            assert(dv.take(i + 1).drop_last() =~= dv.take(i as int));
            assert(dv.take(i + 1).last() == d@);
        }
        if crate::path::same_file_exec(to_chars(d.path.as_str()).as_slice(), pc.as_slice()) {
            let ln: u32 = if d.line > 0 { d.line - 1 } else { 0 };
            let line_text: Option<String> = if (ln as usize) < ls.len() {
                proof {
                    assert(lv[ln as int] == ls@[ln as int]@);
                }
                Some(from_chars(ls[ln as usize].as_slice()))
            } else {
                None
            };
            let lt: Option<&str> = match &line_text {
                Some(s) => Some(s.as_str()),
                None => None,
            };
            let (start, end) = utf16_range(lt, d.col, d.len);
            let mut src = to_chars("glslint/");
            extend_chars(&mut src, to_chars(d.source.as_str()).as_slice());
            let e = EditorDiag {
                line: ln,
                start,
                end,
                severity: d.severity,
                source: from_chars(src.as_slice()),
                message: d.message.clone(),
            };
            let ghost ob = editor_diags_view(out@);
            let ghost ev = e@;
            out.push(e);
            proof {
                assert(editor_diags_view(out@) =~= ob.push(ev));
            }
        }
        i = i + 1;
    }
    proof {
        assert(dv.take(i as int) =~= dv);
    }
    out
}

// ---------------------------------------------------------------------------
// Hover, definition, completion, outline
// ---------------------------------------------------------------------------

/// A hover: the symbol's declaration as a GLSL code block, then its note.
pub open spec fn hover_spec(h: HitModel) -> Seq<char> {
    "```glsl\n"@ + h.detail + "\n```"@ + match h.note {
        Some(n) => "\n\n"@ + n,
        None => seq![],
    }
}

/// The Markdown shown when hovering `hit`.
pub fn hover_markdown(hit: &Hit) -> (r: String)
    ensures
        r@ == hover_spec(hit@),
{
    let mut out = to_chars("```glsl\n");
    extend_chars(&mut out, to_chars(hit.detail.as_str()).as_slice());
    extend_chars(&mut out, to_chars("\n```").as_slice());
    match &hit.note {
        Some(n) => {
            extend_chars(&mut out, to_chars("\n\n").as_slice());
            extend_chars(&mut out, to_chars(n.as_str()).as_slice());
        },
        None => {},
    }
    proof {
        assert(out@ =~= hover_spec(hit@));
    }
    from_chars(out.as_slice())
}

/// Where go-to-definition goes: the declaring file and its 0-based line; a
/// builtin has no source location.
pub fn definition_target(hit: &Hit) -> (r: Option<(String, u32)>)
    ensures
        match hit@.loc {
            None => r is None,
            Some(l) => r matches Some((p, line)) && p@ == l.path && line == (if l.line > 0 {
                l.line - 1
            } else {
                0
            }),
        },
{
    match &hit.loc {
        None => None,
        Some(l) => Some((l.path.clone(), if l.line > 0 { l.line - 1 } else { 0 })),
    }
}

/// The symbol under 0-based `(line, character)` of `text`.
pub fn hit_at(index: &SymbolIndex, text: &str, line: u32, character: u32) -> (r: Option<Hit>)
    ensures
        match nth_line(text@, line as int) {
            None => r is None,
            Some(l) => match r {
                Some(h) => resolve_spec(index@, l, character as int) == Some(h@),
                None => resolve_spec(index@, l, character as int) is None,
            },
        },
{
    let ls = str_lines(text);
    if (line as usize) < ls.len() {
        proof {
            assert(vviews(ls@)[line as int] == ls@[line as int]@);
        }
        let l = from_chars(ls[line as usize].as_slice());
        resolve(index, l.as_str(), character as usize)
    } else {
        None
    }
}

/// The completions at 0-based `(line, character)` of `text`; `None` past its
/// last line.
pub fn complete_at(index: &SymbolIndex, text: &str, line: u32, character: u32) -> (r: Option<Vec<Completion>>)
    ensures
        match nth_line(text@, line as int) {
            None => r is None,
            Some(l) => r matches Some(v) && completions_view(v@) == complete_spec(index@, l, character as int),
        },
{
    let ls = str_lines(text);
    if (line as usize) < ls.len() {
        proof {
            assert(vviews(ls@)[line as int] == ls@[line as int]@);
        }
        let l = from_chars(ls[line as usize].as_slice());
        Some(complete(index, l.as_str(), character as usize))
    } else {
        None
    }
}

/// The width in chars of 0-based line `line` of `text` (0 past its end),
/// truncated to a `u32`: an outline entry spans its whole line.
pub fn line_width(text: &str, line: u32) -> (r: u32)
    ensures
        r == match nth_line(text@, line as int) {
            Some(l) => l.len() as u32,
            None => 0u32,
        },
{
    let ls = str_lines(text);
    if (line as usize) < ls.len() {
        proof {
            assert(vviews(ls@)[line as int] == ls@[line as int]@);
        }
        #[verifier::truncate]
        (ls[line as usize].len() as u32)
    } else {
        0
    }
}

// ---------------------------------------------------------------------------
// Which check is current
// ---------------------------------------------------------------------------

/// The generation of `uri` in `gens`: how many edits it has had since opened.
pub open spec fn generation_of(gens: Seq<(Seq<char>, u64)>, uri: Seq<char>) -> Option<u64>
    decreases gens.len(),
{
    if gens.len() == 0 {
        None
    } else if gens.last().0 == uri {
        Some(gens.last().1)
    } else {
        generation_of(gens.drop_last(), uri)
    }
}

/// A monotonic edit counter per open document. Each edit claims the next
/// generation; a finished check publishes only while its generation is still
/// the current one, so a slow check can never clobber a newer edit's result,
/// and a closed document's in-flight check never publishes.
pub struct Generations {
    entries: Vec<(String, u64)>,
}

impl View for Generations {
    type V = Seq<(Seq<char>, u64)>;

    closed spec fn view(&self) -> Seq<(Seq<char>, u64)> {
        self.entries@.map_values(|e: (String, u64)| (e.0@, e.1))
    }
}

/// What an edit of `uri` makes its generation: one more than before (the first
/// edit of a document is generation 1).
pub open spec fn next_generation(gens: Seq<(Seq<char>, u64)>, uri: Seq<char>) -> int {
    match generation_of(gens, uri) {
        Some(g) => g + 1,
        None => 1,
    }
}

impl Generations {
    /// No document open.
    pub fn new() -> (r: Generations)
        ensures
            forall|u: Seq<char>| generation_of(r@, u) is None,
    {
        let r = Generations { entries: Vec::new() };
        proof {
            assert(r@ =~= Seq::<(Seq<char>, u64)>::empty());
        }
        r
    }

    /// The current generation of `uri`, if it is open.
    pub fn current(&self, uri: &str) -> (r: Option<u64>)
        ensures
            r == generation_of(self@, uri@),
    {
        let uc = to_chars(uri);
        let ghost v = self@;
        let mut i = self.entries.len();
        proof {
            assert(v.take(i as int) =~= v);
        }
        while i > 0
            invariant
                0 <= i <= self.entries.len(),
                v == self@,
                uc@ == uri@,
                generation_of(v, uri@) == generation_of(v.take(i as int), uri@),
            decreases i,
        {
            proof {
                assert(v.take(i as int).drop_last() =~= v.take(i - 1));
                assert(v.take(i as int).last() == (self.entries@[i - 1].0@, self.entries@[i - 1].1));
            }
            if crate::text::string_eq(&self.entries[i - 1].0, uc.as_slice()) {
                return Some(self.entries[i - 1].1);
            }
            i = i - 1;
        }
        None
    }

    /// An edit of `uri`: claim and return its next generation.
    pub fn begin(&mut self, uri: &str) -> (g: u64)
        requires
            next_generation(old(self)@, uri@) <= u64::MAX,
        ensures
            g == next_generation(old(self)@, uri@),
            generation_of(final(self)@, uri@) == Some(g),
            forall|u: Seq<char>| u != uri@ ==> generation_of(final(self)@, u) == generation_of(old(self)@, u),
    {
        let g: u64 = match self.current(uri) {
            Some(c) => c + 1,
            None => 1,
        };
        let ghost before = self@;
        self.entries.push((uri.to_owned(), g));
        proof {
            assert(self@ =~= before.push((uri@, g)));
            assert(self@.drop_last() =~= before);
        }
        g
    }

    /// Whether a check of `uri` at generation `g` may still publish.
    pub fn is_current(&self, uri: &str, g: u64) -> (r: bool)
        ensures
            r == (generation_of(self@, uri@) == Some(g)),
    {
        match self.current(uri) {
            Some(c) => c == g,
            None => false,
        }
    }

    /// `uri` was closed: none of its checks may publish any more.
    pub fn close(&mut self, uri: &str)
        ensures
            generation_of(final(self)@, uri@) is None,
            forall|u: Seq<char>| u != uri@ ==> generation_of(final(self)@, u) == generation_of(old(self)@, u),
    {
        let uc = to_chars(uri);
        let ghost old_v = self@;
        let mut kept: Vec<(String, u64)> = Vec::new();
        let mut i: usize = 0;
        proof {
            assert(kept@.map_values(|e: (String, u64)| (e.0@, e.1)) =~= Seq::<(Seq<char>, u64)>::empty());
        }
        while i < self.entries.len()
            invariant
                0 <= i <= self.entries.len(),
                old_v == self@,
                uc@ == uri@,
                generation_of(kept@.map_values(|e: (String, u64)| (e.0@, e.1)), uri@) is None,
                forall|u: Seq<char>| u != uri@ ==> generation_of(kept@.map_values(|e: (String, u64)| (e.0@, e.1)), u)
                    == generation_of(old_v.take(i as int), u),
            decreases self.entries.len() - i,
        {
            let ghost kv = kept@.map_values(|e: (String, u64)| (e.0@, e.1));
            proof {
                assert(old_v.take(i + 1).drop_last() =~= old_v.take(i as int));
                assert(old_v.take(i + 1).last() == (self.entries@[i as int].0@, self.entries@[i as int].1));
            }
            if !crate::text::string_eq(&self.entries[i].0, uc.as_slice()) {
                let e = (self.entries[i].0.clone(), self.entries[i].1);
                let ghost ev = (e.0@, e.1);
                kept.push(e);
                proof {
                    assert(kept@.map_values(|e: (String, u64)| (e.0@, e.1)) =~= kv.push(ev));
                    assert(kv.push(ev).drop_last() =~= kv);
                    let t1 = old_v.take(i + 1);
                    assert(t1.last() == ev);
                    assert(t1.drop_last() =~= old_v.take(i as int));
                    assert forall|u: Seq<char>| u != uri@ implies generation_of(kv.push(ev), u)
                        == generation_of(t1, u) by {
                        assert(generation_of(t1, u) == if t1.last().0 == u {
                            Some(t1.last().1)
                        } else {
                            generation_of(t1.drop_last(), u)
                        });
                        assert(generation_of(kv.push(ev), u) == if ev.0 == u {
                            Some(ev.1)
                        } else {
                            generation_of(kv, u)
                        });
                    }
                }
            } else {
                proof {
                    let t1 = old_v.take(i + 1);
                    assert(t1.last().0 == uri@);
                    assert(t1.drop_last() =~= old_v.take(i as int));
                    assert forall|u: Seq<char>| u != uri@ implies generation_of(kv, u)
                        == generation_of(t1, u) by {
                        assert(generation_of(t1, u) == if t1.last().0 == u {
                            Some(t1.last().1)
                        } else {
                            generation_of(t1.drop_last(), u)
                        });
                    }
                }
            }
            i = i + 1;
        }
        proof {
            assert(old_v.take(i as int) =~= old_v);
        }
        self.entries = kept;
    }
}

// ---------------------------------------------------------------------------
// Laws
// ---------------------------------------------------------------------------

/// An editor range stays on its line: it starts no later than it ends, and
/// ends no later than the line's last UTF-16 code unit.
pub proof fn lemma_range_stays_on_the_line(t: Seq<char>, col: u32, len: u32)
    requires
        t.len() < 0x8000_0000,
    ensures
        utf16_range_spec(Some(t), col, len).0 <= utf16_range_spec(Some(t), col, len).1 <= utf16_units(t),
{
    lemma_units_bounds(t);
    let start: int = if col > 0 { col - 1 } else { 0 };
    let span: int = if len > 1 { len as int } else { 1 };
    lemma_units_monotone(t, start);
    lemma_units_monotone(t, start + span);
}

proof fn lemma_bmp_units(t: Seq<char>)
    requires
        forall|i: int| 0 <= i < t.len() ==> ((#[trigger] t[i]) as u32) < 0x10000,
    ensures
        utf16_units(t) == t.len(),
    decreases t.len(),
{
    if t.len() > 0 {
        assert((t[t.len() - 1] as u32) < 0x10000);
        let u = t.drop_last();
        assert forall|i: int| 0 <= i < u.len() implies ((#[trigger] u[i]) as u32) < 0x10000 by {
            assert(u[i] == t[i]);
        }
        lemma_bmp_units(u);
    }
}

/// On a line of characters from the basic multilingual plane (ASCII GLSL
/// among them), the editor range is the char range itself, clamped to the line.
pub proof fn lemma_range_is_the_char_range_on_bmp_lines(t: Seq<char>, col: u32, len: u32)
    requires
        t.len() < 0x8000_0000,
        forall|i: int| 0 <= i < t.len() ==> ((#[trigger] t[i]) as u32) < 0x10000,
    ensures
        ({
            let start: int = if col > 0 { col - 1 } else { 0 };
            let span: int = if len > 1 { len as int } else { 1 };
            let s = min_int(start, t.len() as int);
            utf16_range_spec(Some(t), col, len) == (s as u32, max_int(min_int(start + span, t.len() as int), s) as u32)
        }),
{
    lemma_bmp_units(t);
    let start: int = if col > 0 { col - 1 } else { 0 };
    let span: int = if len > 1 { len as int } else { 1 };
    if 0 < start < t.len() {
        let u = t.take(start);
        assert forall|i: int| 0 <= i < u.len() implies ((#[trigger] u[i]) as u32) < 0x10000 by {
            assert(u[i] == t[i]);
        }
        lemma_bmp_units(u);
    }
    if 0 < start + span < t.len() {
        let u = t.take(start + span);
        assert forall|i: int| 0 <= i < u.len() implies ((#[trigger] u[i]) as u32) < 0x10000 by {
            assert(u[i] == t[i]);
        }
        lemma_bmp_units(u);
    }
}

/// The generation guard: once an edit of a document claims the next
/// generation (as [`Generations::begin`] does), a check started at any earlier
/// generation of that document is no longer current, so its result is dropped
/// rather than clobbering the newer one.
pub proof fn lemma_newer_edit_supersedes(
    before: Seq<(Seq<char>, u64)>,
    after: Seq<(Seq<char>, u64)>,
    uri: Seq<char>,
    g: u64,
)
    requires
        generation_of(before, uri) == Some(g),
        generation_of(after, uri) == Some(next_generation(before, uri) as u64),
        next_generation(before, uri) <= u64::MAX,
    ensures
        generation_of(after, uri) != Some(g),
        generation_of(after, uri).unwrap() > g,
{
}

/// A document shows only its own diagnostics: each one it shows is, placed on
/// its line of the document's text, a diagnostic of a path naming the
/// document, and the document's diagnostics all show, in order.
pub proof fn lemma_documents_show_only_their_own_diagnostics(ds: Seq<DiagModel>, path: Seq<char>, text: Seq<char>)
    ensures
        forall|i: int| 0 <= i < document_diags_spec(ds, path, text).len() ==> exists|j: int| 0 <= j < ds.len()
            && crate::path::same_file(ds[j].path, path) && #[trigger] document_diags_spec(ds, path, text)[i]
            == editor_diag_spec(ds[j], nth_line(text, if ds[j].line > 0 { ds[j].line - 1 } else { 0 })),
        document_diags_spec(ds, path, text).len() == ds.filter(|d: DiagModel| crate::path::same_file(d.path, path)).len(),
    decreases ds.len(),
{
    reveal(Seq::filter);
    if ds.len() > 0 {
        let t = ds.drop_last();
        lemma_documents_show_only_their_own_diagnostics(t, path, text);
        let prev = document_diags_spec(t, path, text);
        let r = document_diags_spec(ds, path, text);
        assert forall|i: int| 0 <= i < r.len() implies exists|j: int| 0 <= j < ds.len()
            && crate::path::same_file(ds[j].path, path) && #[trigger] r[i]
            == editor_diag_spec(ds[j], nth_line(text, if ds[j].line > 0 { ds[j].line - 1 } else { 0 })) by {
            if i < prev.len() {
                assert(r[i] == prev[i]);
                let j = choose|j: int| 0 <= j < t.len() && crate::path::same_file(t[j].path, path) && #[trigger] prev[i]
                    == editor_diag_spec(t[j], nth_line(text, if t[j].line > 0 { t[j].line - 1 } else { 0 }));
                assert(ds[j] == t[j]);
            } else {
                assert(ds[ds.len() - 1] == ds.last());
            }
        }
    }
}

} // verus!
