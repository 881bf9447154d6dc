//! Extract GLSL written inline in JS/TS tagged template literals — the
//! `glsl`…`` tag and the `/* glsl */ `…`` marker form — so the checker and LSP
//! can lint shaders that live in `.ts`/`.js` files, not only in standalone
//! `.glsl` files.
//!
//! Like `derive`, this is a heuristic scan, not a JS parser. It walks the source
//! tracking strings and comments so it doesn't mistake a backtick inside a `"…"`
//! string — or a `glsl` substring inside a longer identifier — for a shader, and it
//! records, for every line of the reconstructed GLSL, where that line begins in
//! the host file. A diagnostic on the shader therefore lands on the right `.ts`
//! line and column (see [`Embedded::map`]).
//!
//! One known gap: regex literals aren't lexed. A regex that contains a backtick
//! could swallow a following template — but only into a *missed* shader, never a
//! wrongly-reported one.
//!
//! Interpolations (`${…}`) make a template an incomplete translation unit, so a
//! template with any interpolation is flagged; the `${…}` is blanked to spaces
//! (newlines preserved) so line/column math on the rest stays exact.

use vstd::prelude::*;
use crate::assemble::Stage;
use crate::path::{extension, extension_exec};
use crate::text::{
    contains, contains_exec, ends_with, ends_with_exec, eq_chars, from_chars, is_ascii_alpha, is_ascii_alnum,
    is_word, is_word_exec, is_ws, is_ws_exec, lower_seq, lower_vec, occurs_at, occurs_at_exec, slice_vec, to_chars,
    trim, trim_end, trim_end_vec, trim_vec, ov,
};

verus! {

/// A 1-based (line, column) position in the host `.ts`/`.js` file.
#[derive(Debug, Clone, Copy, PartialEq, Eq, Structural)]
pub struct HostPos {
    pub line: u32,
    pub col: u32,
}

/// A GLSL shader found inside a tagged template literal.
#[derive(Debug)]
pub struct Embedded {
    /// The reconstructed GLSL: line continuations applied, interpolations blanked
    /// to spaces, so source line `n` corresponds to `line_map[n - 1]`.
    pub source: String,
    /// Inferred shader stage (defaulting to fragment).
    pub stage: Stage,
    /// Whether the template has its own `main`; `false` => a chunk.
    pub has_entry: bool,
    /// The binding this template is assigned to, when discoverable.
    pub name: Option<String>,
    /// True when the template contained a `${…}` interpolation.
    pub has_interp: bool,
    /// Where each 1-based source line begins in the host file. Always at least
    /// one entry.
    pub line_map: Vec<HostPos>,
}

pub struct EmbeddedModel {
    pub source: Seq<char>,
    pub stage: Stage,
    pub has_entry: bool,
    pub name: Option<Seq<char>>,
    pub has_interp: bool,
    pub line_map: Seq<HostPos>,
}

impl View for Embedded {
    type V = EmbeddedModel;

    open spec fn view(&self) -> EmbeddedModel {
        EmbeddedModel {
            source: self.source@,
            stage: self.stage,
            has_entry: self.has_entry,
            name: ov(self.name),
            has_interp: self.has_interp,
            line_map: self.line_map@,
        }
    }
}

pub open spec fn embedded_view(v: Seq<Embedded>) -> Seq<EmbeddedModel> {
    v.map_values(|e: Embedded| e@)
}

/// `a - b`, or 0.
pub open spec fn sat_sub(a: int, b: int) -> int {
    if a > b {
        a - b
    } else {
        0
    }
}

/// The host position of source `(line, col)`: the line's entry (lines past the
/// map clamp to the last entry, an empty map to `1:1`) shifted right by `col - 1`,
/// saturating at `u32::MAX`.
pub open spec fn map_spec(line_map: Seq<HostPos>, line: u32, col: u32) -> HostPos {
    let idx = if sat_sub(line as int, 1) < sat_sub(line_map.len() as int, 1) {
        sat_sub(line as int, 1)
    } else {
        sat_sub(line_map.len() as int, 1)
    };
    let base = if idx < line_map.len() {
        line_map[idx]
    } else {
        HostPos { line: 1, col: 1 }
    };
    let c = base.col + sat_sub(col as int, 1);
    HostPos { line: base.line, col: if c > u32::MAX { u32::MAX } else { c as u32 } }
}

impl Embedded {
    /// Map a 1-based (line, col) within [`Embedded::source`] to the host file's
    /// 1-based (line, col). Lines past the map clamp to the last entry.
    pub fn map(&self, line: u32, col: u32) -> (r: HostPos)
        ensures
            r == map_spec(self.line_map@, line, col),
    {
        let l = if line > 0 { (line - 1) as usize } else { 0 };
        let last = if self.line_map.len() > 0 { self.line_map.len() - 1 } else { 0 };
        let idx = if l < last { l } else { last };
        let base = if idx < self.line_map.len() { self.line_map[idx] } else { HostPos { line: 1, col: 1 } };
        let shift = if col > 0 { col - 1 } else { 0 };
        HostPos { line: base.line, col: base.col.saturating_add(shift) }
    }
}

/// Whether `path` is a JS/TS file to scan for embedded shaders.
pub open spec fn is_js_ts_spec(path: Seq<char>) -> bool {
    match extension(path) {
        Some(e) => e == "ts"@ || e == "tsx"@ || e == "mts"@ || e == "cts"@ || e == "js"@ || e == "jsx"@
            || e == "mjs"@ || e == "cjs"@,
        None => false,
    }
}

/// Whether `path` is a JS/TS file we should scan for embedded shaders (rather than
/// treat wholesale as GLSL).
pub fn is_js_ts(path: &str) -> (r: bool)
    ensures
        r == is_js_ts_spec(path@),
{
    let pc = to_chars(path);
    let e = match extension_exec(pc.as_slice()) {
        Some(e) => e,
        None => return false,
    };
    let es = e.as_slice();
    eq_chars(es, to_chars("ts").as_slice()) || eq_chars(es, to_chars("tsx").as_slice()) || eq_chars(
        es,
        to_chars("mts").as_slice(),
    ) || eq_chars(es, to_chars("cts").as_slice()) || eq_chars(es, to_chars("js").as_slice()) || eq_chars(
        es,
        to_chars("jsx").as_slice(),
    ) || eq_chars(es, to_chars("mjs").as_slice()) || eq_chars(es, to_chars("cjs").as_slice())
}

// ---------------------------------------------------------------------------
// Host positions and the cursor
// ---------------------------------------------------------------------------

/// The 1-based (line, column) of index `i` in `s`: each `\n` before it starts a
/// new line, every other character moves one column right.
pub open spec fn pos_at(s: Seq<char>, i: int) -> (int, int)
    decreases i,
{
    if i <= 0 {
        (1, 1)
    } else {
        let p = pos_at(s, i - 1);
        if s[i - 1] == '\n' {
            (p.0 + 1, 1)
        } else {
            (p.0, p.1 + 1)
        }
    }
}

/// Every host position of `s` fits in a `u32`: it has fewer than
/// `u32::MAX - 1` newlines, and no line reaches `u32::MAX - 1` characters.
pub open spec fn positions_fit(s: Seq<char>) -> bool {
    forall|i: int| 0 <= i <= s.len() ==> #[trigger] pos_at(s, i).0 < u32::MAX && pos_at(s, i).1 < u32::MAX
}

/// Whether every host position of `source` fits in a `u32`.
pub fn positions_fit_exec(source: &str) -> (r: bool)
    ensures
        r == positions_fit(source@),
{
    let cs = to_chars(source);
    let mut line: u64 = 1;
    let mut col: u64 = 1;
    let mut i: usize = 0;
    while i < cs.len()
        invariant
            0 <= i <= cs.len(),
            cs@ == source@,
            line as int == pos_at(cs@, i as int).0,
            col as int == pos_at(cs@, i as int).1,
            forall|j: int| 0 <= j <= i ==> #[trigger] pos_at(cs@, j).0 < u32::MAX && pos_at(cs@, j).1 < u32::MAX,
        decreases cs.len() - i,
    {
        if cs[i] == '\n' {
            line = line + 1;
            col = 1;
        } else {
            col = col + 1;
        }
        i = i + 1;
        proof {
            assert(line as int == pos_at(cs@, i as int).0 && col as int == pos_at(cs@, i as int).1);
        }
        if line >= 0xFFFF_FFFF || col >= 0xFFFF_FFFF {
            proof {
                assert(!(pos_at(cs@, i as int).0 < u32::MAX && pos_at(cs@, i as int).1 < u32::MAX));
            }
            return false;
        }
        proof {
            assert forall|j: int| 0 <= j <= i implies #[trigger] pos_at(cs@, j).0 < u32::MAX && pos_at(cs@, j).1 < u32::MAX by {
                if j < i {
                }
            }
        }
    }
    proof {
        assert(cs@ == source@);
    }
    true
}

/// The host position of index `i`, for a source whose positions fit.
pub open spec fn host_at(s: Seq<char>, i: int) -> HostPos {
    HostPos { line: pos_at(s, i).0 as u32, col: pos_at(s, i).1 as u32 }
}

/// A char-based cursor over the source, tracking 1-based line/column so every
/// position is a host location without a second pass.
struct Cursor<'a> {
    cs: &'a [char],
    i: usize,
    line: u32,
    col: u32,
}

impl<'a> Cursor<'a> {
    spec fn wf(&self) -> bool {
        &&& positions_fit(self.cs@)
        &&& self.i <= self.cs@.len()
        &&& self.line as int == pos_at(self.cs@, self.i as int).0
        &&& self.col as int == pos_at(self.cs@, self.i as int).1
    }

    fn new(cs: &'a [char]) -> (r: Self)
        requires
            positions_fit(cs@),
        ensures
            r.wf(),
            r.cs@ == cs@,
            r.i == 0,
    {
        Cursor { cs, i: 0, line: 1, col: 1 }
    }

    fn bump(&mut self) -> (r: Option<char>)
        requires
            old(self).wf(),
        ensures
            final(self).wf(),
            final(self).cs@ == old(self).cs@,
            final(self).i == (if old(self).i < old(self).cs@.len() {
                old(self).i + 1
            } else {
                old(self).i as int
            }),
            r == (if old(self).i < old(self).cs@.len() {
                Some(old(self).cs@[old(self).i as int])
            } else {
                None::<char>
            }),
    {
        if self.i >= self.cs.len() {
            return None;
        }
        let c = self.cs[self.i];
        proof {
            assert(pos_at(self.cs@, self.i + 1).0 < u32::MAX);
        }
        self.i = self.i + 1;
        if c == '\n' {
            self.line = self.line + 1;
            self.col = 1;
        } else {
            self.col = self.col + 1;
        }
        Some(c)
    }

    fn pos(&self) -> (r: HostPos)
        requires
            self.wf(),
        ensures
            r == host_at(self.cs@, self.i as int),
    {
        HostPos { line: self.line, col: self.col }
    }
}

pub open spec fn is_ident_start_spec(c: char) -> bool {
    is_ascii_alpha(c) || c == '_' || c == '$'
}

pub open spec fn is_ident_char_spec(c: char) -> bool {
    is_ascii_alnum(c) || c == '_' || c == '$'
}

fn is_ident_start(c: char) -> (r: bool)
    ensures
        r == is_ident_start_spec(c),
{
    crate::text::is_ascii_alpha_exec(c) || c == '_' || c == '$'
}

fn is_ident_char(c: char) -> (r: bool)
    ensures
        r == is_ident_char_spec(c),
{
    crate::text::is_ascii_alpha_exec(c) || crate::text::is_ascii_digit_exec(c) || c == '_' || c == '$'
}

/// `min(i + 2, len)`: past an escape pair, or the end of the text.
pub open spec fn past2(s: Seq<char>, i: int) -> int {
    if i + 2 <= s.len() {
        i + 2
    } else {
        s.len() as int
    }
}

/// The end of the identifier-character run starting at `i`.
pub open spec fn ident_end(s: Seq<char>, i: int) -> int
    decreases s.len() - i,
{
    if 0 <= i < s.len() && is_ident_char_spec(s[i]) {
        ident_end(s, i + 1)
    } else {
        i
    }
}

/// The end of the whitespace run starting at `i`.
pub open spec fn ws_end(s: Seq<char>, i: int) -> int
    decreases s.len() - i,
{
    if 0 <= i < s.len() && is_ws(s[i]) {
        ws_end(s, i + 1)
    } else {
        i
    }
}

/// The first `\n` at or after `i` (or the end).
pub open spec fn newline_from(s: Seq<char>, i: int) -> int
    decreases s.len() - i,
{
    if 0 <= i < s.len() && s[i] != '\n' {
        newline_from(s, i + 1)
    } else {
        i
    }
}

pub proof fn lemma_scan_ends(s: Seq<char>, i: int)
    requires
        0 <= i <= s.len(),
    ensures
        i <= ident_end(s, i) <= s.len(),
        i <= ws_end(s, i) <= s.len(),
        i <= newline_from(s, i) <= s.len(),
    decreases s.len() - i,
{
    if i < s.len() {
        lemma_scan_ends(s, i + 1);
    }
}

fn read_ident(cur: &mut Cursor) -> (r: Vec<char>)
    requires
        old(cur).wf(),
    ensures
        final(cur).wf(),
        final(cur).cs@ == old(cur).cs@,
        final(cur).i == ident_end(old(cur).cs@, old(cur).i as int),
        r@ == old(cur).cs@.subrange(old(cur).i as int, final(cur).i as int),
{
    let ghost s = cur.cs@;
    let ghost start = cur.i as int;
    let mut out: Vec<char> = Vec::new();
    while cur.i < cur.cs.len() && is_ident_char(cur.cs[cur.i])
        invariant
            cur.wf(),
            cur.cs@ == s,
            s == old(cur).cs@,
            start == old(cur).i,
            start <= cur.i,
            ident_end(s, start) == ident_end(s, cur.i as int),
            out@ == s.subrange(start, cur.i as int),
        decreases s.len() - cur.i,
    {
        let c = cur.cs[cur.i];
        out.push(c);
        cur.bump();
        proof {
            assert(out@ =~= s.subrange(start, cur.i as int));
        }
    }
    out
}

/// Skip whitespace (including newlines). Comments are not skipped here.
fn skip_ws(cur: &mut Cursor)
    requires
        old(cur).wf(),
    ensures
        final(cur).wf(),
        final(cur).cs@ == old(cur).cs@,
        final(cur).i == ws_end(old(cur).cs@, old(cur).i as int),
{
    let ghost s = cur.cs@;
    let ghost start = cur.i as int;
    while cur.i < cur.cs.len() && is_ws_exec(cur.cs[cur.i])
        invariant
            cur.wf(),
            cur.cs@ == s,
            s == old(cur).cs@,
            start == old(cur).i,
            ws_end(s, start) == ws_end(s, cur.i as int),
        decreases s.len() - cur.i,
    {
        cur.bump();
    }
}

/// Skip a `//` comment, up to (not past) its newline.
fn skip_line_comment(cur: &mut Cursor)
    requires
        old(cur).wf(),
        old(cur).i + 2 <= old(cur).cs@.len(),
    ensures
        final(cur).wf(),
        final(cur).cs@ == old(cur).cs@,
        final(cur).i == newline_from(old(cur).cs@, old(cur).i + 2),
{
    let ghost s = cur.cs@;
    cur.bump();
    cur.bump();
    while cur.i < cur.cs.len() && cur.cs[cur.i] != '\n'
        invariant
            cur.wf(),
            cur.cs@ == s,
            s == old(cur).cs@,
            newline_from(s, old(cur).i + 2) == newline_from(s, cur.i as int),
        decreases s.len() - cur.i,
    {
        cur.bump();
    }
}

/// The first `*/` at or after `j`.
pub open spec fn block_close(s: Seq<char>, j: int) -> Option<int>
    decreases s.len() - j,
{
    if j < 0 || j + 1 >= s.len() {
        None
    } else if s[j] == '*' && s[j + 1] == '/' {
        Some(j)
    } else {
        block_close(s, j + 1)
    }
}

pub proof fn lemma_block_close(s: Seq<char>, j: int)
    ensures
        block_close(s, j) matches Some(k) ==> j <= k && k + 2 <= s.len(),
    decreases s.len() - j,
{
    if 0 <= j && j + 1 < s.len() && !(s[j] == '*' && s[j + 1] == '/') {
        lemma_block_close(s, j + 1);
    }
}

/// Past a `/* … */` comment starting at `i`, and whether its content is exactly
/// `glsl` (ASCII case-insensitive, trimmed) — the shader marker. An unterminated
/// comment runs to the end and is no marker.
pub open spec fn block_comment(s: Seq<char>, i: int) -> (int, bool) {
    match block_close(s, i + 2) {
        Some(k) => (k + 2, lower_seq(trim(s.subrange(i + 2, k))) == "glsl"@),
        None => (s.len() as int, false),
    }
}

fn skip_block_comment(cur: &mut Cursor) -> (r: bool)
    requires
        old(cur).wf(),
        old(cur).i + 2 <= old(cur).cs@.len(),
    ensures
        final(cur).wf(),
        final(cur).cs@ == old(cur).cs@,
        (final(cur).i as int, r) == block_comment(old(cur).cs@, old(cur).i as int),
{
    let ghost s = cur.cs@;
    let ghost i0 = cur.i as int;
    cur.bump();
    cur.bump();
    let start = cur.i;
    while cur.i < cur.cs.len()
        invariant
            cur.wf(),
            cur.cs@ == s,
            s == old(cur).cs@,
            i0 == old(cur).i,
            start == i0 + 2,
            start <= cur.i <= s.len(),
            block_close(s, i0 + 2) == block_close(s, cur.i as int),
        decreases s.len() - cur.i,
    {
        if cur.cs[cur.i] == '*' && cur.i + 1 < cur.cs.len() && cur.cs[cur.i + 1] == '/' {
            let content = slice_vec(cur.cs, start, cur.i);
            cur.bump();
            cur.bump();
            let t = trim_vec(content.as_slice());
            let l = lower_vec(t.as_slice());
            return eq_chars(l.as_slice(), to_chars("glsl").as_slice());
        }
        cur.bump();
    }
    false
}

/// Past a `'…'`/`"…"` string whose content starts at `j`: at the closing quote
/// (consumed), at a newline (an unterminated single-line string; not consumed),
/// or at the end. A backslash escapes the next character.
pub open spec fn string_end(s: Seq<char>, j: int, q: char) -> int
    decreases s.len() - j,
{
    if j < 0 || j >= s.len() {
        s.len() as int
    } else if s[j] == '\\' {
        string_end(s, past2(s, j), q)
    } else if s[j] == q {
        j + 1
    } else if s[j] == '\n' {
        j
    } else {
        string_end(s, j + 1, q)
    }
}

pub proof fn lemma_string_end(s: Seq<char>, j: int, q: char)
    requires
        0 <= j <= s.len(),
    ensures
        j <= string_end(s, j, q) <= s.len(),
    decreases s.len() - j,
{
    if j < s.len() {
        if s[j] == '\\' {
            lemma_string_end(s, past2(s, j), q);
        } else if s[j] != q && s[j] != '\n' {
            lemma_string_end(s, j + 1, q);
        }
    }
}

fn skip_string(cur: &mut Cursor, quote: char)
    requires
        old(cur).wf(),
        old(cur).i < old(cur).cs@.len(),
    ensures
        final(cur).wf(),
        final(cur).cs@ == old(cur).cs@,
        final(cur).i == string_end(old(cur).cs@, old(cur).i + 1, quote),
{
    let ghost s = cur.cs@;
    cur.bump();
    let ghost j0 = cur.i as int;
    while cur.i < cur.cs.len()
        invariant
            cur.wf(),
            cur.cs@ == s,
            s == old(cur).cs@,
            j0 == old(cur).i + 1,
            j0 <= cur.i,
            string_end(s, j0, quote) == string_end(s, cur.i as int, quote),
        decreases s.len() - cur.i,
    {
        let c = cur.cs[cur.i];
        if c == '\\' {
            cur.bump();
            cur.bump();
        } else if c == quote {
            cur.bump();
            return;
        } else if c == '\n' {
            return;
        } else {
            cur.bump();
        }
    }
}

// A template or an interpolation is skipped whole: nested strings, templates and
// further interpolations are consumed so their braces and backticks can't be
// misread. Each scan is defined from the index just past its opening token;
// `template_end` / `interp_end` are mutually recursive, and every inner scan is
// known to end strictly later than where it started (see `lemma_skip_ends`).

/// Past a template literal whose content starts at `j`.
pub open spec fn template_end(s: Seq<char>, j: int) -> int
    decreases s.len() - j, 0int,
{
    if j < 0 || j >= s.len() {
        s.len() as int
    } else if s[j] == '\\' {
        template_end(s, past2(s, j))
    } else if s[j] == '`' {
        j + 1
    } else if s[j] == '$' && j + 1 < s.len() && s[j + 1] == '{' {
        let e = interp_end(s, j + 2, 1);
        if j < e <= s.len() {
            template_end(s, e)
        } else {
            s.len() as int
        }
    } else {
        template_end(s, j + 1)
    }
}

/// Past a `${…}` interpolation, scanning from `j` with `depth` braces open.
pub open spec fn interp_end(s: Seq<char>, j: int, depth: nat) -> int
    decreases s.len() - j, 1int,
{
    if j < 0 || j >= s.len() {
        s.len() as int
    } else if s[j] == '{' {
        interp_end(s, j + 1, depth + 1)
    } else if s[j] == '}' {
        if depth <= 1 {
            j + 1
        } else {
            interp_end(s, j + 1, (depth - 1) as nat)
        }
    } else if s[j] == '\'' || s[j] == '"' {
        let e = string_end(s, j + 1, s[j]);
        if j < e <= s.len() {
            interp_end(s, e, depth)
        } else {
            s.len() as int
        }
    } else if s[j] == '`' {
        let e = template_end(s, j + 1);
        if j < e <= s.len() {
            interp_end(s, e, depth)
        } else {
            s.len() as int
        }
    } else if s[j] == '\\' {
        interp_end(s, past2(s, j), depth)
    } else {
        interp_end(s, j + 1, depth)
    }
}

pub proof fn lemma_skip_ends(s: Seq<char>, j: int, depth: nat)
    requires
        0 <= j <= s.len(),
    ensures
        j <= template_end(s, j) <= s.len(),
        j <= interp_end(s, j, depth) <= s.len(),
    decreases s.len() - j,
{
    if j < s.len() {
        lemma_skip_ends(s, j + 1, depth);
        lemma_skip_ends(s, j + 1, depth + 1);
        if depth > 1 {
            lemma_skip_ends(s, j + 1, (depth - 1) as nat);
        }
        lemma_skip_ends(s, past2(s, j), depth);
        if s[j] == '\'' || s[j] == '"' {
            lemma_string_end(s, j + 1, s[j]);
            let e = string_end(s, j + 1, s[j]);
            if j < e <= s.len() {
                lemma_skip_ends(s, e, depth);
            }
        }
        if j + 2 <= s.len() {
            lemma_skip_ends(s, j + 2, 1);
            let e = interp_end(s, j + 2, 1);
            if j < e <= s.len() {
                lemma_skip_ends(s, e, depth);
            }
        }
        let e2 = template_end(s, j + 1);
        if j < e2 <= s.len() {
            lemma_skip_ends(s, e2, depth);
        }
    }
}

/// Skip a whole template literal (cursor at its opening backtick), including any
/// `${…}` interpolations.
fn skip_template(cur: &mut Cursor)
    requires
        old(cur).wf(),
        old(cur).i < old(cur).cs@.len(),
    ensures
        final(cur).wf(),
        final(cur).cs@ == old(cur).cs@,
        final(cur).i == template_end(old(cur).cs@, old(cur).i + 1),
    decreases old(cur).cs@.len() - old(cur).i, 1int,
{
    let ghost s = cur.cs@;
    cur.bump();
    let ghost j0 = cur.i as int;
    while cur.i < cur.cs.len()
        invariant
            cur.wf(),
            cur.cs@ == s,
            s == old(cur).cs@,
            j0 == old(cur).i + 1,
            j0 <= cur.i,
            template_end(s, j0) == template_end(s, cur.i as int),
        decreases s.len() - cur.i,
    {
        let c = cur.cs[cur.i];
        if c == '\\' {
            cur.bump();
            cur.bump();
        } else if c == '`' {
            cur.bump();
            return;
        } else if c == '$' && cur.i + 1 < cur.cs.len() && cur.cs[cur.i + 1] == '{' {
            let ghost at = cur.i as int;
            proof {
                lemma_skip_ends(s, at + 2, 1);
            }
            skip_interpolation(cur);
        } else {
            cur.bump();
        }
    }
}

/// Skip a `${…}` interpolation (cursor at its `$`).
fn skip_interpolation(cur: &mut Cursor)
    requires
        old(cur).wf(),
        old(cur).i + 2 <= old(cur).cs@.len(),
    ensures
        final(cur).wf(),
        final(cur).cs@ == old(cur).cs@,
        final(cur).i == interp_end(old(cur).cs@, old(cur).i + 2, 1),
    decreases old(cur).cs@.len() - old(cur).i, 0int,
{
    let ghost s = cur.cs@;
    cur.bump();
    cur.bump();
    let ghost j0 = cur.i as int;
    let mut depth: usize = 1;
    while cur.i < cur.cs.len()
        invariant
            cur.wf(),
            cur.cs@ == s,
            s == old(cur).cs@,
            j0 == old(cur).i + 2,
            j0 <= cur.i,
            1 <= depth <= cur.i - j0 + 1,
            interp_end(s, j0, 1) == interp_end(s, cur.i as int, depth as nat),
        decreases s.len() - cur.i,
    {
        let c = cur.cs[cur.i];
        if c == '{' {
            depth = depth + 1;
            cur.bump();
        } else if c == '}' {
            cur.bump();
            if depth <= 1 {
                return;
            }
            depth = depth - 1;
        } else if c == '\'' || c == '"' {
            proof {
                lemma_string_end(s, cur.i + 1, c);
            }
            skip_string(cur, c);
        } else if c == '`' {
            proof {
                lemma_skip_ends(s, cur.i + 1, 1);
            }
            skip_template(cur);
        } else if c == '\\' {
            cur.bump();
            cur.bump();
        } else {
            cur.bump();
        }
    }
}

// ---------------------------------------------------------------------------
// Reading a template
// ---------------------------------------------------------------------------

/// Blank a string inside an interpolation, from its content at `m`: a space per
/// character (newlines kept, each recording a new source line) up to and
/// including the closing quote. Yields where the scan stopped and the output and
/// line map so far.
pub open spec fn blank_string_spec(
    s: Seq<char>,
    m: int,
    q: char,
    out: Seq<char>,
    map: Seq<HostPos>,
) -> (int, Seq<char>, Seq<HostPos>)
    decreases s.len() - m,
{
    if m < 0 || m >= s.len() {
        (s.len() as int, out, map)
    } else if s[m] == '\\' {
        if m + 1 < s.len() {
            blank_string_spec(s, m + 2, q, out.push(' ').push(' '), map)
        } else {
            (s.len() as int, out.push(' '), map)
        }
    } else if s[m] == q {
        (m + 1, out.push(' '), map)
    } else if s[m] == '\n' {
        blank_string_spec(s, m + 1, q, out.push('\n'), map.push(host_at(s, m + 1)))
    } else {
        blank_string_spec(s, m + 1, q, out.push(' '), map)
    }
}

/// Blank a template nested in an interpolation, from its content at `m`, up to
/// and including the first unescaped backtick.
pub open spec fn blank_nested_spec(s: Seq<char>, m: int, out: Seq<char>, map: Seq<HostPos>) -> (
    int,
    Seq<char>,
    Seq<HostPos>,
)
    decreases s.len() - m,
{
    if m < 0 || m >= s.len() {
        (s.len() as int, out, map)
    } else if s[m] == '\\' {
        if m + 1 < s.len() {
            if s[m + 1] == '\n' {
                blank_nested_spec(s, m + 2, out.push(' ').push('\n'), map.push(host_at(s, m + 2)))
            } else {
                blank_nested_spec(s, m + 2, out.push(' ').push(' '), map)
            }
        } else {
            (s.len() as int, out.push(' '), map)
        }
    } else if s[m] == '`' {
        (m + 1, out.push(' '), map)
    } else if s[m] == '\n' {
        blank_nested_spec(s, m + 1, out.push('\n'), map.push(host_at(s, m + 1)))
    } else if s[m] == '\r' {
        blank_nested_spec(s, m + 1, out.push('\r'), map)
    } else {
        blank_nested_spec(s, m + 1, out.push(' '), map)
    }
}

pub proof fn lemma_blank_inner_ends(s: Seq<char>, m: int, q: char, out: Seq<char>, map: Seq<HostPos>)
    requires
        0 <= m <= s.len(),
    ensures
        m <= blank_string_spec(s, m, q, out, map).0 <= s.len(),
        m <= blank_nested_spec(s, m, out, map).0 <= s.len(),
    decreases s.len() - m,
{
    if m < s.len() {
        if m + 1 < s.len() {
            lemma_blank_inner_ends(s, m + 2, q, out.push(' ').push(' '), map);
            lemma_blank_inner_ends(s, m + 2, q, out.push(' ').push('\n'), map.push(host_at(s, m + 2)));
        }
        lemma_blank_inner_ends(s, m + 1, q, out.push('\n'), map.push(host_at(s, m + 1)));
        lemma_blank_inner_ends(s, m + 1, q, out.push(' '), map);
        lemma_blank_inner_ends(s, m + 1, q, out.push('\r'), map);
    }
}

/// Blank an interpolation's body from `k` with `depth` braces open: a space per
/// character (newlines kept), nested strings and templates blanked whole, up to
/// and including the `}` that closes it.
pub open spec fn blank_scan(s: Seq<char>, k: int, depth: nat, out: Seq<char>, map: Seq<HostPos>) -> (
    int,
    Seq<char>,
    Seq<HostPos>,
)
    decreases s.len() - k,
{
    if k < 0 || k >= s.len() {
        (s.len() as int, out, map)
    } else if s[k] == '{' {
        blank_scan(s, k + 1, depth + 1, out.push(' '), map)
    } else if s[k] == '}' {
        if depth <= 1 {
            (k + 1, out.push(' '), map)
        } else {
            blank_scan(s, k + 1, (depth - 1) as nat, out.push(' '), map)
        }
    } else if s[k] == '\'' || s[k] == '"' {
        let r = blank_string_spec(s, k + 1, s[k], out.push(' '), map);
        if k < r.0 <= s.len() {
            blank_scan(s, r.0, depth, r.1, r.2)
        } else {
            (s.len() as int, r.1, r.2)
        }
    } else if s[k] == '`' {
        let r = blank_nested_spec(s, k + 1, out.push(' '), map);
        if k < r.0 <= s.len() {
            blank_scan(s, r.0, depth, r.1, r.2)
        } else {
            (s.len() as int, r.1, r.2)
        }
    } else if s[k] == '\n' {
        blank_scan(s, k + 1, depth, out.push('\n'), map.push(host_at(s, k + 1)))
    } else if s[k] == '\r' {
        blank_scan(s, k + 1, depth, out.push('\r'), map)
    } else {
        blank_scan(s, k + 1, depth, out.push(' '), map)
    }
}

pub proof fn lemma_blank_scan_ends(s: Seq<char>, k: int, depth: nat, out: Seq<char>, map: Seq<HostPos>)
    requires
        0 <= k <= s.len(),
    ensures
        k <= blank_scan(s, k, depth, out, map).0 <= s.len(),
    decreases s.len() - k,
{
    if k < s.len() {
        let c = s[k];
        if c == '{' {
            lemma_blank_scan_ends(s, k + 1, depth + 1, out.push(' '), map);
        } else if c == '}' {
            if depth > 1 {
                lemma_blank_scan_ends(s, k + 1, (depth - 1) as nat, out.push(' '), map);
            }
        } else if c == '\'' || c == '"' {
            lemma_blank_inner_ends(s, k + 1, c, out.push(' '), map);
            let r = blank_string_spec(s, k + 1, c, out.push(' '), map);
            lemma_blank_scan_ends(s, r.0, depth, r.1, r.2);
        } else if c == '`' {
            lemma_blank_inner_ends(s, k + 1, c, out.push(' '), map);
            let r = blank_nested_spec(s, k + 1, out.push(' '), map);
            lemma_blank_scan_ends(s, r.0, depth, r.1, r.2);
        } else if c == '\n' {
            lemma_blank_scan_ends(s, k + 1, depth, out.push('\n'), map.push(host_at(s, k + 1)));
        } else if c == '\r' {
            lemma_blank_scan_ends(s, k + 1, depth, out.push('\r'), map);
        } else {
            lemma_blank_scan_ends(s, k + 1, depth, out.push(' '), map);
        }
    }
}

/// Nothing has been emitted yet on the current (last) source line.
pub open spec fn line_empty(out: Seq<char>) -> bool {
    out.len() == 0 || out.last() == '\n'
}

/// The current source line's host anchor moved to `p`.
pub open spec fn reanchor(map: Seq<HostPos>, p: HostPos) -> Seq<HostPos> {
    if map.len() > 0 {
        map.update(map.len() - 1, p)
    } else {
        map
    }
}

/// Read a template's content from `j`: the reconstructed GLSL, its per-line host
/// map, whether it held an interpolation, and the index past the closing
/// backtick (or the end). A `\` + newline is a line continuation (the newline is
/// dropped; a line with nothing on it yet is re-anchored after it); `` \` ``,
/// `\$`, `\\` unescape; any other escape is kept verbatim; a bare CR is kept but
/// starts no line.
#[verifier::opaque]
pub open spec fn read_from(s: Seq<char>, j: int, out: Seq<char>, map: Seq<HostPos>, interp: bool) -> (
    Seq<char>,
    Seq<HostPos>,
    bool,
    int,
)
    decreases s.len() - j,
{
    if j < 0 || j >= s.len() {
        (out, map, interp, s.len() as int)
    } else if s[j] == '`' {
        (out, map, interp, j + 1)
    } else if s[j] == '\\' {
        let k = j + 1;
        if k >= s.len() {
            (out.push('\\'), map, interp, s.len() as int)
        } else if s[k] == '\r' {
            let n = if k + 1 < s.len() && s[k + 1] == '\n' {
                k + 2
            } else {
                k + 1
            };
            let map2 = if line_empty(out) {
                reanchor(map, host_at(s, n))
            } else {
                map
            };
            read_from(s, n, out, map2, interp)
        } else if s[k] == '\n' {
            let map2 = if line_empty(out) {
                reanchor(map, host_at(s, k + 1))
            } else {
                map
            };
            read_from(s, k + 1, out, map2, interp)
        } else if s[k] == '`' || s[k] == '$' || s[k] == '\\' {
            read_from(s, k + 1, out.push(s[k]), map, interp)
        } else {
            read_from(s, k + 1, out.push('\\').push(s[k]), map, interp)
        }
    } else if s[j] == '$' && j + 1 < s.len() && s[j + 1] == '{' {
        let r = blank_scan(s, j + 2, 1, out.push(' ').push(' '), map);
        if j < r.0 <= s.len() {
            read_from(s, r.0, r.1, r.2, true)
        } else {
            (r.1, r.2, true, s.len() as int)
        }
    } else if s[j] == '\n' {
        read_from(s, j + 1, out.push('\n'), map.push(host_at(s, j + 1)), interp)
    } else {
        read_from(s, j + 1, out.push(s[j]), map, interp)
    }
}

pub proof fn lemma_read_step(s: Seq<char>, j: int, out: Seq<char>, map: Seq<HostPos>, interp: bool)
    ensures
        read_from(s, j, out, map, interp) == if j < 0 || j >= s.len() {
            (out, map, interp, s.len() as int)
        } else if s[j] == '`' {
            (out, map, interp, j + 1)
        } else if s[j] == '\\' {
            let k = j + 1;
            if k >= s.len() {
                (out.push('\\'), map, interp, s.len() as int)
            } else if s[k] == '\r' {
                let n = if k + 1 < s.len() && s[k + 1] == '\n' {
                    k + 2
                } else {
                    k + 1
                };
                let map2 = if line_empty(out) {
                    reanchor(map, host_at(s, n))
                } else {
                    map
                };
                read_from(s, n, out, map2, interp)
            } else if s[k] == '\n' {
                let map2 = if line_empty(out) {
                    reanchor(map, host_at(s, k + 1))
                } else {
                    map
                };
                read_from(s, k + 1, out, map2, interp)
            } else if s[k] == '`' || s[k] == '$' || s[k] == '\\' {
                read_from(s, k + 1, out.push(s[k]), map, interp)
            } else {
                read_from(s, k + 1, out.push('\\').push(s[k]), map, interp)
            }
        } else if s[j] == '$' && j + 1 < s.len() && s[j + 1] == '{' {
            let r = blank_scan(s, j + 2, 1, out.push(' ').push(' '), map);
            if j < r.0 <= s.len() {
                read_from(s, r.0, r.1, r.2, true)
            } else {
                (r.1, r.2, true, s.len() as int)
            }
        } else if s[j] == '\n' {
            read_from(s, j + 1, out.push('\n'), map.push(host_at(s, j + 1)), interp)
        } else {
            read_from(s, j + 1, out.push(s[j]), map, interp)
        },
{
    reveal(read_from);
}

pub proof fn lemma_read_ends(s: Seq<char>, j: int, out: Seq<char>, map: Seq<HostPos>, interp: bool)
    requires
        0 <= j <= s.len(),
    ensures
        j <= read_from(s, j, out, map, interp).3 <= s.len(),
    decreases s.len() - j,
{
    reveal(read_from);
    if j < s.len() {
        let k = j + 1;
        if s[j] == '\\' && k < s.len() {
            let n = if k + 1 < s.len() && s[k + 1] == '\n' {
                k + 2
            } else {
                k + 1
            };
            let m2 = if line_empty(out) {
                reanchor(map, host_at(s, n))
            } else {
                map
            };
            lemma_read_ends(s, n, out, m2, interp);
            let m3 = if line_empty(out) {
                reanchor(map, host_at(s, k + 1))
            } else {
                map
            };
            lemma_read_ends(s, k + 1, out, m3, interp);
            lemma_read_ends(s, k + 1, out.push(s[k]), map, interp);
            lemma_read_ends(s, k + 1, out.push('\\').push(s[k]), map, interp);
        } else if s[j] == '$' && j + 1 < s.len() && s[j + 1] == '{' {
            lemma_blank_scan_ends(s, j + 2, 1, out.push(' ').push(' '), map);
            let r = blank_scan(s, j + 2, 1, out.push(' ').push(' '), map);
            if j < r.0 <= s.len() {
                lemma_read_ends(s, r.0, r.1, r.2, true);
            }
        } else if s[j] == '\n' {
            lemma_read_ends(s, j + 1, out.push('\n'), map.push(host_at(s, j + 1)), interp);
        } else if s[j] != '`' {
            lemma_read_ends(s, j + 1, out.push(s[j]), map, interp);
        }
    }
}

/// The template whose content starts at `j`.
pub open spec fn read_template_spec(s: Seq<char>, j: int) -> (Seq<char>, Seq<HostPos>, bool, int) {
    read_from(s, j, seq![], seq![host_at(s, j)], false)
}

fn push_pos(map: &mut Vec<HostPos>, p: HostPos)
    ensures
        final(map)@ == old(map)@.push(p),
{
    map.push(p);
}

fn blank_string(cur: &mut Cursor, out: &mut Vec<char>, line_map: &mut Vec<HostPos>, quote: char)
    requires
        old(cur).wf(),
        old(cur).i < old(cur).cs@.len(),
    ensures
        final(cur).wf(),
        final(cur).cs@ == old(cur).cs@,
        (final(cur).i as int, final(out)@, final(line_map)@) == blank_string_spec(
            old(cur).cs@,
            old(cur).i + 1,
            quote,
            old(out)@.push(' '),
            old(line_map)@,
        ),
{
    let ghost s = cur.cs@;
    cur.bump();
    out.push(' ');
    let ghost j0 = cur.i as int;
    let ghost o0 = out@;
    let ghost m0 = line_map@;
    while cur.i < cur.cs.len()
        invariant
            cur.wf(),
            cur.cs@ == s,
            s == old(cur).cs@,
            j0 == old(cur).i + 1,
            o0 == old(out)@.push(' '),
            m0 == old(line_map)@,
            blank_string_spec(s, j0, quote, o0, m0) == blank_string_spec(s, cur.i as int, quote, out@, line_map@),
        decreases s.len() - cur.i,
    {
        let c = cur.cs[cur.i];
        if c == '\\' {
            cur.bump();
            out.push(' ');
            if cur.i < cur.cs.len() {
                cur.bump();
                out.push(' ');
            }
        } else if c == quote {
            cur.bump();
            out.push(' ');
            return;
        } else if c == '\n' {
            cur.bump();
            out.push('\n');
            let p = cur.pos();
            push_pos(line_map, p);
        } else {
            cur.bump();
            out.push(' ');
        }
    }
}

fn blank_nested_template(cur: &mut Cursor, out: &mut Vec<char>, line_map: &mut Vec<HostPos>)
    requires
        old(cur).wf(),
        old(cur).i < old(cur).cs@.len(),
    ensures
        final(cur).wf(),
        final(cur).cs@ == old(cur).cs@,
        (final(cur).i as int, final(out)@, final(line_map)@) == blank_nested_spec(
            old(cur).cs@,
            old(cur).i + 1,
            old(out)@.push(' '),
            old(line_map)@,
        ),
{
    let ghost s = cur.cs@;
    cur.bump();
    out.push(' ');
    let ghost j0 = cur.i as int;
    let ghost o0 = out@;
    let ghost m0 = line_map@;
    while cur.i < cur.cs.len()
        invariant
            cur.wf(),
            cur.cs@ == s,
            s == old(cur).cs@,
            j0 == old(cur).i + 1,
            o0 == old(out)@.push(' '),
            m0 == old(line_map)@,
            blank_nested_spec(s, j0, o0, m0) == blank_nested_spec(s, cur.i as int, out@, line_map@),
        decreases s.len() - cur.i,
    {
        let c = cur.cs[cur.i];
        if c == '\\' {
            cur.bump();
            out.push(' ');
            if cur.i < cur.cs.len() {
                let n = cur.cs[cur.i];
                cur.bump();
                if n == '\n' {
                    out.push('\n');
                    let p = cur.pos();
                    push_pos(line_map, p);
                } else {
                    out.push(' ');
                }
            }
        } else if c == '`' {
            cur.bump();
            out.push(' ');
            return;
        } else if c == '\n' {
            cur.bump();
            out.push('\n');
            let p = cur.pos();
            push_pos(line_map, p);
        } else if c == '\r' {
            cur.bump();
            out.push('\r');
        } else {
            cur.bump();
            out.push(' ');
        }
    }
}

/// Consume a `${…}` interpolation (cursor at its `$`), emitting a space for each
/// non-newline char (so columns stay put) and a real newline for each newline (so
/// line numbers stay put).
fn blank_interpolation(cur: &mut Cursor, out: &mut Vec<char>, line_map: &mut Vec<HostPos>)
    requires
        old(cur).wf(),
        old(cur).i + 2 <= old(cur).cs@.len(),
    ensures
        final(cur).wf(),
        final(cur).cs@ == old(cur).cs@,
        (final(cur).i as int, final(out)@, final(line_map)@) == blank_scan(
            old(cur).cs@,
            old(cur).i + 2,
            1,
            old(out)@.push(' ').push(' '),
            old(line_map)@,
        ),
{
    let ghost s = cur.cs@;
    cur.bump();
    out.push(' ');
    cur.bump();
    out.push(' ');
    let ghost j0 = cur.i as int;
    let ghost o0 = out@;
    let ghost m0 = line_map@;
    let mut depth: usize = 1;
    while cur.i < cur.cs.len()
        invariant
            cur.wf(),
            cur.cs@ == s,
            s == old(cur).cs@,
            j0 == old(cur).i + 2,
            o0 == old(out)@.push(' ').push(' '),
            m0 == old(line_map)@,
            j0 <= cur.i,
            1 <= depth <= cur.i - j0 + 1,
            blank_scan(s, j0, 1, o0, m0) == blank_scan(s, cur.i as int, depth as nat, out@, line_map@),
        decreases s.len() - cur.i,
    {
        let c = cur.cs[cur.i];
        if c == '{' {
            depth = depth + 1;
            cur.bump();
            out.push(' ');
        } else if c == '}' {
            cur.bump();
            out.push(' ');
            if depth <= 1 {
                return;
            }
            depth = depth - 1;
        } else if c == '\'' || c == '"' {
            proof {
                lemma_blank_inner_ends(s, cur.i + 1, c, out@.push(' '), line_map@);
            }
            blank_string(cur, out, line_map, c);
        } else if c == '`' {
            proof {
                lemma_blank_inner_ends(s, cur.i + 1, c, out@.push(' '), line_map@);
            }
            blank_nested_template(cur, out, line_map);
        } else if c == '\n' {
            cur.bump();
            out.push('\n');
            let p = cur.pos();
            push_pos(line_map, p);
        } else if c == '\r' {
            cur.bump();
            out.push('\r');
        } else {
            cur.bump();
            out.push(' ');
        }
    }
}

fn line_empty_exec(out: &Vec<char>) -> (r: bool)
    ensures
        r == line_empty(out@),
{
    out.len() == 0 || out[out.len() - 1] == '\n'
}

fn reanchor_exec(line_map: &mut Vec<HostPos>, p: HostPos)
    ensures
        final(line_map)@ == reanchor(old(line_map)@, p),
{
    if line_map.len() > 0 {
        let k = line_map.len() - 1;
        line_map.set(k, p);
    }
}

/// Read a template literal, cursor just past the opening backtick: the
/// reconstructed GLSL, its per-line host map, and whether it held an
/// interpolation. Leaves the cursor just past the closing backtick.
fn read_template(cur: &mut Cursor) -> (r: (Vec<char>, Vec<HostPos>, bool))
    requires
        old(cur).wf(),
    ensures
        final(cur).wf(),
        final(cur).cs@ == old(cur).cs@,
        (r.0@, r.1@, r.2, final(cur).i as int) == read_template_spec(old(cur).cs@, old(cur).i as int),
{
    let ghost s = cur.cs@;
    let ghost j0 = cur.i as int;
    let mut out: Vec<char> = Vec::new();
    let mut line_map: Vec<HostPos> = Vec::new();
    line_map.push(cur.pos());
    let mut has_interp = false;
    proof {
        assert(line_map@ =~= seq![host_at(s, j0)]);
    }
    while cur.i < cur.cs.len()
        invariant
            cur.wf(),
            cur.cs@ == s,
            s == old(cur).cs@,
            j0 == old(cur).i,
            read_template_spec(s, j0) == read_from(s, cur.i as int, out@, line_map@, has_interp),
        decreases s.len() - cur.i,
    {
        proof {
            lemma_read_step(s, cur.i as int, out@, line_map@, has_interp);
        }
        let c = cur.cs[cur.i];
        if c == '`' {
            cur.bump();
            proof {
                lemma_read_step(s, cur.i as int, out@, line_map@, has_interp);
            }
            return (out, line_map, has_interp);
        } else if c == '\\' {
            cur.bump();
            if cur.i >= cur.cs.len() {
                out.push('\\');
                proof {
                    lemma_read_step(s, cur.i as int, out@, line_map@, has_interp);
                }
            } else {
                let n = cur.cs[cur.i];
                if n == '\r' {
                    let fresh = line_empty_exec(&out);
                    cur.bump();
                    if cur.i < cur.cs.len() && cur.cs[cur.i] == '\n' {
                        cur.bump();
                    }
                    if fresh {
                        let p = cur.pos();
                        reanchor_exec(&mut line_map, p);
                    }
                } else if n == '\n' {
                    let fresh = line_empty_exec(&out);
                    cur.bump();
                    if fresh {
                        let p = cur.pos();
                        reanchor_exec(&mut line_map, p);
                    }
                } else if n == '`' || n == '$' || n == '\\' {
                    out.push(n);
                    cur.bump();
                } else {
                    out.push('\\');
                    out.push(n);
                    cur.bump();
                }
            }
        } else if c == '$' && cur.i + 1 < cur.cs.len() && cur.cs[cur.i + 1] == '{' {
            has_interp = true;
            proof {
                lemma_blank_scan_ends(s, cur.i + 2, 1, out@.push(' ').push(' '), line_map@);
            }
            blank_interpolation(cur, &mut out, &mut line_map);
        } else if c == '\n' {
            out.push('\n');
            cur.bump();
            let p = cur.pos();
            push_pos(&mut line_map, p);
        } else {
            out.push(c);
            cur.bump();
        }
    }
    proof {
        lemma_read_step(s, cur.i as int, out@, line_map@, has_interp);
    }
    (out, line_map, has_interp)
}

// ---------------------------------------------------------------------------
// Stage inference
// ---------------------------------------------------------------------------

/// `word` appears in `text` on identifier boundaries.
pub open spec fn contains_word_spec(text: Seq<char>, word: Seq<char>) -> bool {
    crate::derive::contains_ident_spec(text, word)
}

/// Whether `word` appears in `text` on identifier boundaries (so `main` doesn't
/// match inside `domain`).
fn contains_word(text: &[char], word: &[char]) -> (r: bool)
    ensures
        r == contains_word_spec(text@, word@),
{
    crate::derive::contains_ident(text, word)
}

pub open spec fn vertex_builtins() -> Seq<Seq<char>> {
    seq!["gl_Position"@, "gl_PointSize"@, "gl_VertexID"@, "gl_InstanceID"@]
}

pub open spec fn fragment_builtins() -> Seq<Seq<char>> {
    seq![
        "gl_FragCoord"@,
        "gl_FragDepth"@,
        "gl_FrontFacing"@,
        "gl_PointCoord"@,
        "discard"@,
        "dFdx"@,
        "dFdy"@,
        "fwidth"@,
    ]
}

pub open spec fn compute_builtins() -> Seq<Seq<char>> {
    seq![
        "gl_GlobalInvocationID"@,
        "gl_LocalInvocationID"@,
        "gl_LocalInvocationIndex"@,
        "gl_WorkGroupID"@,
        "gl_NumWorkGroups"@,
    ]
}

/// Some word of `set` is used in `code`.
pub open spec fn uses(code: Seq<char>, set: Seq<Seq<char>>) -> bool {
    exists|k: int| 0 <= k < set.len() && contains_word_spec(code, #[trigger] set[k])
}

fn uses_exec(code: &[char], set: &Vec<Vec<char>>) -> (r: bool)
    ensures
        r == uses(code@, crate::text::vviews(set@)),
{
    let ghost sv = crate::text::vviews(set@);
    let mut k: usize = 0;
    while k < set.len()
        invariant
            0 <= k <= set.len(),
            sv == crate::text::vviews(set@),
            forall|j: int| 0 <= j < k ==> !contains_word_spec(code@, #[trigger] sv[j]),
        decreases set.len() - k,
    {
        proof {
            assert(sv[k as int] == set@[k as int]@);
        }
        if contains_word(code, set[k].as_slice()) {
            return true;
        }
        k = k + 1;
    }
    false
}

fn words(ws: &[&str]) -> (r: Vec<Vec<char>>)
    ensures
        r@.len() == ws@.len(),
        forall|k: int| 0 <= k < ws@.len() ==> (#[trigger] r@[k])@ == ws@[k]@,
{
    let mut out: Vec<Vec<char>> = Vec::new();
    let mut k: usize = 0;
    while k < ws.len()
        invariant
            0 <= k <= ws.len(),
            out@.len() == k,
            forall|j: int| 0 <= j < k ==> (#[trigger] out@[j])@ == ws@[j]@,
        decreases ws.len() - k,
    {
        out.push(to_chars(ws[k]));
        k = k + 1;
    }
    out
}

/// The stage a shader's builtins pin it to, if any use is stage-specific:
/// compute (a `local_size_x` layout or a compute builtin), then vertex, then
/// fragment.
pub open spec fn builtin_stage_spec(code: Seq<char>) -> Option<Stage> {
    if contains(code, "local_size_x"@) || uses(code, compute_builtins()) {
        Some(Stage::Compute)
    } else if uses(code, vertex_builtins()) {
        Some(Stage::Vertex)
    } else if uses(code, fragment_builtins()) {
        Some(Stage::Fragment)
    } else {
        None
    }
}

fn builtin_stage(code: &[char]) -> (r: Option<Stage>)
    ensures
        r == builtin_stage_spec(code@),
{
    let vert = words(&["gl_Position", "gl_PointSize", "gl_VertexID", "gl_InstanceID"]);
    let frag = words(
        &[
            "gl_FragCoord",
            "gl_FragDepth",
            "gl_FrontFacing",
            "gl_PointCoord",
            "discard",
            "dFdx",
            "dFdy",
            "fwidth",
        ],
    );
    let comp = words(
        &[
            "gl_GlobalInvocationID",
            "gl_LocalInvocationID",
            "gl_LocalInvocationIndex",
            "gl_WorkGroupID",
            "gl_NumWorkGroups",
        ],
    );
    proof {
        assert(crate::text::vviews(vert@) =~= vertex_builtins());
        assert(crate::text::vviews(frag@) =~= fragment_builtins());
        assert(crate::text::vviews(comp@) =~= compute_builtins());
    }
    let lsx = to_chars("local_size_x");
    if contains_exec(code, lsx.as_slice()) || uses_exec(code, &comp) {
        Some(Stage::Compute)
    } else if uses_exec(code, &vert) {
        Some(Stage::Vertex)
    } else if uses_exec(code, &frag) {
        Some(Stage::Fragment)
    } else {
        None
    }
}

/// A stage hinted by the binding name (ASCII case-insensitive): `vert`/`vs` →
/// vertex, `frag`/`fs` → fragment, `comp` → compute.
pub open spec fn name_stage_spec(name: Option<Seq<char>>) -> Option<Stage> {
    match name {
        None => None,
        Some(raw) => {
            let n = lower_seq(raw);
            if contains(n, "vert"@) || n == "vs"@ || ends_with(n, "vs"@) || ends_with(n, "_vs"@) {
                Some(Stage::Vertex)
            } else if contains(n, "frag"@) || n == "fs"@ || ends_with(n, "fs"@) || ends_with(n, "_fs"@) {
                Some(Stage::Fragment)
            } else if contains(n, "comp"@) || contains(n, "compute"@) {
                Some(Stage::Compute)
            } else {
                None
            }
        },
    }
}

fn name_stage(name: &Option<Vec<char>>) -> (r: Option<Stage>)
    ensures
        r == name_stage_spec(
            match name {
                Some(n) => Some(n@),
                None => None,
            },
        ),
{
    let raw = match name {
        Some(n) => n,
        None => return None,
    };
    let n = lower_vec(raw.as_slice());
    let ns = n.as_slice();
    if contains_exec(ns, to_chars("vert").as_slice()) || eq_chars(ns, to_chars("vs").as_slice()) || ends_with_exec(
        ns,
        to_chars("vs").as_slice(),
    ) || ends_with_exec(ns, to_chars("_vs").as_slice()) {
        Some(Stage::Vertex)
    } else if contains_exec(ns, to_chars("frag").as_slice()) || eq_chars(ns, to_chars("fs").as_slice())
        || ends_with_exec(ns, to_chars("fs").as_slice()) || ends_with_exec(ns, to_chars("_fs").as_slice()) {
        Some(Stage::Fragment)
    } else if contains_exec(ns, to_chars("comp").as_slice()) || contains_exec(ns, to_chars("compute").as_slice()) {
        Some(Stage::Compute)
    } else {
        None
    }
}

/// The text before a `main` ends (modulo trailing whitespace) in a whole-word
/// `void`.
pub open spec fn void_before(b: Seq<char>) -> bool {
    let t = trim_end(b);
    ends_with(t, "void"@) && (t.len() == 4 || !is_word(t[t.len() - 5]))
}

/// The code defines an entry point: a whole-word `main` right after a whole-word
/// `void`.
pub open spec fn has_entry_point_spec(code: Seq<char>) -> bool {
    exists|i: int|
        #[trigger] occurs_at(code, "main"@, i) && crate::derive::word_bounded(code, i, i + 4) && void_before(
            code.take(i),
        )
}

/// Whether the code defines an entry point — a `void main` function.
fn has_entry_point(code: &[char]) -> (r: bool)
    ensures
        r == has_entry_point_spec(code@),
{
    let m = to_chars("main");
    let v = to_chars("void");
    proof {
        reveal_strlit("main");
    }
    let mut i: usize = 0;
    loop
        invariant
            0 <= i <= code.len(),
            m@ == "main"@,
            v@ == "void"@,
            m@.len() == 4,
            forall|j: int| 0 <= j < i ==> !(#[trigger] occurs_at(code@, "main"@, j)
                && crate::derive::word_bounded(code@, j, j + 4) && void_before(code@.take(j))),
        decreases code.len() - i,
    {
        if occurs_at_exec(code, m.as_slice(), i) {
            let e = i + 4;
            let left = i == 0 || !is_word_exec(code[i - 1]);
            let right = e == code.len() || !is_word_exec(code[e]);
            if left && right {
                let head = slice_vec(code, 0, i);
                let before = trim_end_vec(head.as_slice());
                proof {
                    assert(head@ =~= code@.take(i as int));
                    reveal_strlit("void");
                }
                if ends_with_exec(before.as_slice(), v.as_slice()) {
                    let vstart = before.len() - 4;
                    if vstart == 0 || !is_word_exec(before[vstart - 1]) {
                        return true;
                    }
                }
            }
        }
        if i == code.len() {
            proof {
                assert forall|j: int| !(#[trigger] occurs_at(code@, "main"@, j) && crate::derive::word_bounded(
                    code@,
                    j,
                    j + 4,
                ) && void_before(code@.take(j))) by {
                    if j < 0 || j > code@.len() {
                        assert(!occurs_at(code@, "main"@, j));
                    }
                }
            }
            return false;
        }
        i = i + 1;
    }
}

/// The code from index `i` with each `//` and `/* */` comment blanked to one
/// space (a `//` comment ends before its newline; an unterminated block comment
/// runs to the end).
pub open spec fn blank_from(s: Seq<char>, i: int) -> Seq<char>
    decreases s.len() - i,
{
    if i < 0 || i >= s.len() {
        seq![]
    } else if s[i] == '/' && i + 1 < s.len() && s[i + 1] == '/' {
        let e = newline_from(s, i + 1);
        if i < e <= s.len() {
            seq![' '] + blank_from(s, e)
        } else {
            seq![]
        }
    } else if s[i] == '/' && i + 1 < s.len() && s[i + 1] == '*' {
        let e = match block_close(s, i + 2) {
            Some(k) => k + 2,
            None => s.len() as int,
        };
        if i < e <= s.len() {
            seq![' '] + blank_from(s, e)
        } else {
            seq![]
        }
    } else {
        seq![s[i]] + blank_from(s, i + 1)
    }
}

/// `src` with its GLSL comments blanked to whitespace.
pub open spec fn blank_comments_spec(src: Seq<char>) -> Seq<char> {
    blank_from(src, 0)
}

/// Blank GLSL `//` and `/* */` comments to whitespace, so a word in a comment
/// isn't mistaken for code (and `void/**/main` still reads as two words).
/// Content is otherwise verbatim.
pub fn blank_comments(cs: &[char]) -> (r: Vec<char>)
    ensures
        r@ == blank_comments_spec(cs@),
{
    let mut out: Vec<char> = Vec::new();
    let mut i: usize = 0;
    proof {
        assert(out@ + blank_from(cs@, 0) =~= blank_from(cs@, 0));
    }
    while i < cs.len()
        invariant
            0 <= i <= cs.len(),
            blank_comments_spec(cs@) == out@ + blank_from(cs@, i as int),
        decreases cs.len() - i,
    {
        if cs[i] == '/' && i + 1 < cs.len() && cs[i + 1] == '/' {
            proof {
                lemma_scan_ends(cs@, i + 1);
            }
            let mut k = i + 1;
            while k < cs.len() && cs[k] != '\n'
                invariant
                    i + 1 <= k <= cs.len(),
                    newline_from(cs@, i + 1) == newline_from(cs@, k as int),
                decreases cs.len() - k,
            {
                k = k + 1;
            }
            let ghost before = out@;
            out.push(' ');
            proof {
                assert(before + blank_from(cs@, i as int) =~= out@ + blank_from(cs@, k as int));
            }
            i = k;
        } else if cs[i] == '/' && i + 1 < cs.len() && cs[i + 1] == '*' {
            proof {
                lemma_block_close(cs@, i + 2);
            }
            let last = cs.len() - 1;
            let mut k = i + 2;
            while k < last && !(cs[k] == '*' && cs[k + 1] == '/')
                invariant
                    i + 2 <= k <= cs.len(),
                    last + 1 == cs.len(),
                    block_close(cs@, i + 2) == block_close(cs@, k as int),
                decreases cs.len() - k,
            {
                k = k + 1;
            }
            let ghost before = out@;
            out.push(' ');
            if k < last {
                proof {
                    assert(before + blank_from(cs@, i as int) =~= out@ + blank_from(cs@, k + 2));
                }
                i = k + 2;
            } else {
                proof {
                    assert(before + blank_from(cs@, i as int) =~= out@ + blank_from(cs@, cs@.len() as int));
                }
                i = cs.len();
            }
        } else {
            let ghost before = out@;
            out.push(cs[i]);
            proof {
                assert(before + blank_from(cs@, i as int) =~= out@ + blank_from(cs@, i + 1));
            }
            i = i + 1;
        }
    }
    proof {
        assert(out@ + blank_from(cs@, i as int) =~= out@);
    }
    out
}

/// `(stage, has_entry)` from the shader's text (comments blanked) and binding
/// name: a stage-specific builtin first, then the name hint, then fragment.
pub open spec fn infer_stage_spec(name: Option<Seq<char>>, src: Seq<char>) -> (Stage, bool) {
    let code = blank_comments_spec(src);
    let stage = match builtin_stage_spec(code) {
        Some(st) => st,
        None => match name_stage_spec(name) {
            Some(st) => st,
            None => Stage::Fragment,
        },
    };
    (stage, has_entry_point_spec(code))
}

/// Infer `(stage, has_entry)` from the shader's text and binding name.
fn infer_stage(name: &Option<Vec<char>>, src: &[char]) -> (r: (Stage, bool))
    ensures
        r == infer_stage_spec(
            match name {
                Some(n) => Some(n@),
                None => None,
            },
            src@,
        ),
{
    let code = blank_comments(src);
    let has_entry = has_entry_point(code.as_slice());
    let stage = match builtin_stage(code.as_slice()) {
        Some(st) => st,
        None => match name_stage(name) {
            Some(st) => st,
            None => Stage::Fragment,
        },
    };
    (stage, has_entry)
}

// ---------------------------------------------------------------------------
// Bindings and the scan
// ---------------------------------------------------------------------------

/// Back over whitespace ending at `i`.
pub open spec fn ws_back(s: Seq<char>, i: int) -> int
    decreases i,
{
    if 0 < i <= s.len() && is_ws(s[i - 1]) {
        ws_back(s, i - 1)
    } else {
        i
    }
}

/// Back over identifier characters ending at `i`.
pub open spec fn ident_back(s: Seq<char>, i: int) -> int
    decreases i,
{
    if 0 < i <= s.len() && is_ident_char_spec(s[i - 1]) {
        ident_back(s, i - 1)
    } else {
        i
    }
}

pub proof fn lemma_back_bounds(s: Seq<char>, i: int)
    requires
        0 <= i <= s.len(),
    ensures
        0 <= ws_back(s, i) <= i,
        0 <= ident_back(s, i) <= i,
    decreases i,
{
    if i > 0 {
        lemma_back_bounds(s, i - 1);
    }
}

fn skip_ws_back(cs: &[char], start: usize) -> (r: usize)
    requires
        start <= cs@.len(),
    ensures
        r == ws_back(cs@, start as int),
{
    let mut i = start;
    while i > 0 && is_ws_exec(cs[i - 1])
        invariant
            i <= cs@.len(),
            ws_back(cs@, start as int) == ws_back(cs@, i as int),
        decreases i,
    {
        i = i - 1;
    }
    i
}

/// The binding a template is assigned to: the identifier before `=` or `:`
/// (modulo whitespace) immediately preceding position `i`. A `=` of `==`, `!=`,
/// `<=`, `>=` is no assignment.
pub open spec fn binding_before_spec(s: Seq<char>, i: int) -> Option<Seq<char>> {
    let i1 = ws_back(s, i);
    if i1 <= 0 {
        None
    } else {
        let op = s[i1 - 1];
        if op != '=' && op != ':' {
            None
        } else if op == '=' && i1 >= 2 && (s[i1 - 2] == '=' || s[i1 - 2] == '!' || s[i1 - 2] == '<' || s[i1
            - 2] == '>') {
            None
        } else {
            let end = ws_back(s, i1 - 1);
            let st = ident_back(s, end);
            if st == end {
                None
            } else if is_ident_start_spec(s[st]) {
                Some(s.subrange(st, end))
            } else {
                None
            }
        }
    }
}

fn binding_before(cs: &[char], i: usize) -> (r: Option<Vec<char>>)
    requires
        i <= cs@.len(),
    ensures
        match r {
            Some(n) => binding_before_spec(cs@, i as int) == Some(n@),
            None => binding_before_spec(cs@, i as int) is None,
        },
{
    proof {
        lemma_back_bounds(cs@, i as int);
    }
    let mut i = skip_ws_back(cs, i);
    if i == 0 {
        return None;
    }
    let op = cs[i - 1];
    if op != '=' && op != ':' {
        return None;
    }
    if op == '=' && i >= 2 && (cs[i - 2] == '=' || cs[i - 2] == '!' || cs[i - 2] == '<' || cs[i - 2] == '>') {
        return None;
    }
    i = i - 1;
    proof {
        lemma_back_bounds(cs@, i as int);
    }
    i = skip_ws_back(cs, i);
    let end = i;
    proof {
        lemma_back_bounds(cs@, end as int);
    }
    while i > 0 && is_ident_char(cs[i - 1])
        invariant
            i <= end <= cs@.len(),
            ident_back(cs@, end as int) == ident_back(cs@, i as int),
        decreases i,
    {
        i = i - 1;
    }
    if i == end {
        return None;
    }
    let name = slice_vec(cs, i, end);
    if is_ident_start(name[0]) {
        Some(name)
    } else {
        None
    }
}

/// The token starting at `i` is preceded (modulo whitespace) by a `.`.
pub open spec fn preceded_by_dot_spec(s: Seq<char>, i: int) -> bool {
    let k = ws_back(s, i);
    k > 0 && s[k - 1] == '.'
}

fn preceded_by_dot(cs: &[char], i: usize) -> (r: bool)
    requires
        i <= cs@.len(),
    ensures
        r == preceded_by_dot_spec(cs@, i as int),
{
    proof {
        lemma_back_bounds(cs@, i as int);
    }
    let k = skip_ws_back(cs, i);
    k > 0 && cs[k - 1] == '.'
}

/// The shader whose template content starts at `j`, bound to `name`, and the
/// index past its closing backtick.
pub open spec fn embedded_at(s: Seq<char>, j: int, name: Option<Seq<char>>) -> (EmbeddedModel, int) {
    let t = read_template_spec(s, j);
    let st = infer_stage_spec(name, t.0);
    (
        EmbeddedModel { source: t.0, stage: st.0, has_entry: st.1, name, has_interp: t.2, line_map: t.1 },
        t.3,
    )
}

fn push_embedded(out: &mut Vec<Embedded>, cur: &mut Cursor, name: Option<Vec<char>>)
    requires
        old(cur).wf(),
    ensures
        final(cur).wf(),
        final(cur).cs@ == old(cur).cs@,
        embedded_view(final(out)@) == embedded_view(old(out)@).push(
            embedded_at(
                old(cur).cs@,
                old(cur).i as int,
                match name {
                    Some(n) => Some(n@),
                    None => None,
                },
            ).0,
        ),
        final(cur).i == embedded_at(
            old(cur).cs@,
            old(cur).i as int,
            match name {
                Some(n) => Some(n@),
                None => None,
            },
        ).1,
{
    let (source, line_map, has_interp) = read_template(cur);
    let (stage, has_entry) = infer_stage(&name, source.as_slice());
    let e = Embedded {
        source: from_chars(source.as_slice()),
        stage,
        has_entry,
        name: match name {
            Some(n) => Some(from_chars(n.as_slice())),
            None => None,
        },
        has_interp,
        line_map,
    };
    let ghost ev = e@;
    let ghost before = out@;
    out.push(e);
    proof {
        assert(embedded_view(out@) =~= embedded_view(before).push(ev));
    }
}

/// The shaders of `s` found from index `i` on, after `acc`: line and block
/// comments, strings and untagged templates are skipped whole; a `glsl` tag (not
/// a member access, not part of a longer identifier) or a `/* glsl */` marker
/// followed (modulo whitespace) by a backtick starts a shader.
#[verifier::opaque]
pub open spec fn extract_from(s: Seq<char>, i: int, acc: Seq<EmbeddedModel>) -> Seq<EmbeddedModel>
    decreases s.len() - i,
{
    if i < 0 || i >= s.len() {
        acc
    } else {
        let c = s[i];
        let next: (int, Seq<EmbeddedModel>) = if c == '/' && i + 1 < s.len() && s[i + 1] == '/' {
            (newline_from(s, i + 2), acc)
        } else if c == '/' && i + 1 < s.len() && s[i + 1] == '*' {
            let b = block_comment(s, i);
            if b.1 {
                let w = ws_end(s, b.0);
                if w < s.len() && s[w] == '`' {
                    let e = embedded_at(s, w + 1, binding_before_spec(s, i));
                    (e.1, acc.push(e.0))
                } else {
                    (w, acc)
                }
            } else {
                (b.0, acc)
            }
        } else if c == '\'' || c == '"' {
            (string_end(s, i + 1, c), acc)
        } else if c == '`' {
            (template_end(s, i + 1), acc)
        } else if is_ident_start_spec(c) {
            let e = ident_end(s, i);
            if s.subrange(i, e) == "glsl"@ && !preceded_by_dot_spec(s, i) {
                let w = ws_end(s, e);
                if w < s.len() && s[w] == '`' {
                    let em = embedded_at(s, w + 1, binding_before_spec(s, i));
                    (em.1, acc.push(em.0))
                } else {
                    (w, acc)
                }
            } else {
                (e, acc)
            }
        } else {
            (i + 1, acc)
        };
        if i < next.0 <= s.len() {
            extract_from(s, next.0, next.1)
        } else {
            next.1
        }
    }
}

/// One step of the scan at `i`: where it continues and what it has found.
pub open spec fn extract_step(s: Seq<char>, i: int, acc: Seq<EmbeddedModel>) -> (int, Seq<EmbeddedModel>) {
    let c = s[i];
    if c == '/' && i + 1 < s.len() && s[i + 1] == '/' {
        (newline_from(s, i + 2), acc)
    } else if c == '/' && i + 1 < s.len() && s[i + 1] == '*' {
        let b = block_comment(s, i);
        if b.1 {
            let w = ws_end(s, b.0);
            if w < s.len() && s[w] == '`' {
                let e = embedded_at(s, w + 1, binding_before_spec(s, i));
                (e.1, acc.push(e.0))
            } else {
                (w, acc)
            }
        } else {
            (b.0, acc)
        }
    } else if c == '\'' || c == '"' {
        (string_end(s, i + 1, c), acc)
    } else if c == '`' {
        (template_end(s, i + 1), acc)
    } else if is_ident_start_spec(c) {
        let e = ident_end(s, i);
        if s.subrange(i, e) == "glsl"@ && !preceded_by_dot_spec(s, i) {
            let w = ws_end(s, e);
            if w < s.len() && s[w] == '`' {
                let em = embedded_at(s, w + 1, binding_before_spec(s, i));
                (em.1, acc.push(em.0))
            } else {
                (w, acc)
            }
        } else {
            (e, acc)
        }
    } else {
        (i + 1, acc)
    }
}

proof fn lemma_extract_step(s: Seq<char>, i: int, acc: Seq<EmbeddedModel>)
    ensures
        extract_from(s, i, acc) == if i < 0 || i >= s.len() {
            acc
        } else {
            let n = extract_step(s, i, acc);
            if i < n.0 <= s.len() {
                extract_from(s, n.0, n.1)
            } else {
                n.1
            }
        },
{
    reveal(extract_from);
}

/// Find every `glsl`…`` / `/* glsl */ `…`` shader in a JS/TS source (one
/// whose host positions all fit in a `u32`).
pub fn extract(source: &str) -> (r: Vec<Embedded>)
    requires
        positions_fit(source@),
    ensures
        embedded_view(r@) == extract_from(source@, 0, seq![]),
{
    let cs = to_chars(source);
    let mut cur = Cursor::new(cs.as_slice());
    let ghost s = cs@;
    let mut out: Vec<Embedded> = Vec::new();
    proof {
        assert(embedded_view(out@) =~= Seq::<EmbeddedModel>::empty());
    }
    while cur.i < cur.cs.len()
        invariant
            cur.wf(),
            cur.cs@ == s,
            s == source@,
            extract_from(s, 0, seq![]) == extract_from(s, cur.i as int, embedded_view(out@)),
        decreases s.len() - cur.i,
    {
        let ghost i0 = cur.i as int;
        let ghost acc0 = embedded_view(out@);
        proof {
            lemma_extract_step(s, i0, acc0);
        }
        let c = cur.cs[cur.i];
        if c == '/' && cur.i + 1 < cur.cs.len() && cur.cs[cur.i + 1] == '/' {
            proof {
                lemma_scan_ends(s, i0 + 2);
            }
            skip_line_comment(&mut cur);
        } else if c == '/' && cur.i + 1 < cur.cs.len() && cur.cs[cur.i + 1] == '*' {
            let anchor = cur.i;
            proof {
                lemma_block_close(s, i0 + 2);
            }
            if skip_block_comment(&mut cur) {
                proof {
                    lemma_scan_ends(s, cur.i as int);
                }
                skip_ws(&mut cur);
                if cur.i < cur.cs.len() && cur.cs[cur.i] == '`' {
                    cur.bump();
                    let name = binding_before(cur.cs, anchor);
                    proof {
                        lemma_read_ends(s, cur.i as int, seq![], seq![host_at(s, cur.i as int)], false);
                    }
                    push_embedded(&mut out, &mut cur, name);
                }
            }
        } else if c == '\'' || c == '"' {
            proof {
                lemma_string_end(s, i0 + 1, c);
            }
            skip_string(&mut cur, c);
        } else if c == '`' {
            proof {
                lemma_skip_ends(s, i0 + 1, 1);
            }
            skip_template(&mut cur);
        } else if is_ident_start(c) {
            let anchor = cur.i;
            proof {
                lemma_scan_ends(s, i0 + 1);
                assert(ident_end(s, i0) == ident_end(s, i0 + 1));
            }
            let ident = read_ident(&mut cur);
            let g = to_chars("glsl");
            if eq_chars(ident.as_slice(), g.as_slice()) && !preceded_by_dot(cur.cs, anchor) {
                proof {
                    lemma_scan_ends(s, cur.i as int);
                }
                skip_ws(&mut cur);
                if cur.i < cur.cs.len() && cur.cs[cur.i] == '`' {
                    cur.bump();
                    let name = binding_before(cur.cs, anchor);
                    proof {
                        lemma_read_ends(s, cur.i as int, seq![], seq![host_at(s, cur.i as int)], false);
                    }
                    push_embedded(&mut out, &mut cur, name);
                }
            }
        } else {
            cur.bump();
        }
    }
    proof {
        lemma_extract_step(s, cur.i as int, embedded_view(out@));
    }
    out
}

// ---------------------------------------------------------------------------
// Laws
// ---------------------------------------------------------------------------

/// The number of `\n` in `s`.
pub open spec fn newline_count(s: Seq<char>) -> nat
    decreases s.len(),
{
    if s.len() == 0 {
        0
    } else {
        newline_count(s.drop_last()) + if s.last() == '\n' {
            1nat
        } else {
            0nat
        }
    }
}

/// One line-map entry per line of the reconstructed source.
pub open spec fn one_entry_per_line(out: Seq<char>, map: Seq<HostPos>) -> bool {
    map.len() == newline_count(out) + 1
}

proof fn lemma_count_push(s: Seq<char>, c: char)
    ensures
        newline_count(s.push(c)) == newline_count(s) + if c == '\n' {
            1nat
        } else {
            0nat
        },
{
    assert(s.push(c).drop_last() =~= s);
}

proof fn lemma_blank_inner_lines(s: Seq<char>, m: int, q: char, out: Seq<char>, map: Seq<HostPos>)
    requires
        one_entry_per_line(out, map),
    ensures
        ({
            let r = blank_string_spec(s, m, q, out, map);
            one_entry_per_line(r.1, r.2)
        }),
        ({
            let r = blank_nested_spec(s, m, out, map);
            one_entry_per_line(r.1, r.2)
        }),
    decreases s.len() - m,
{
    lemma_count_push(out, ' ');
    lemma_count_push(out, '\n');
    lemma_count_push(out, '\r');
    lemma_count_push(out.push(' '), ' ');
    lemma_count_push(out.push(' '), '\n');
    if 0 <= m < s.len() {
        if m + 1 < s.len() {
            lemma_blank_inner_lines(s, m + 2, q, out.push(' ').push(' '), map);
            lemma_blank_inner_lines(s, m + 2, q, out.push(' ').push('\n'), map.push(host_at(s, m + 2)));
        }
        lemma_blank_inner_lines(s, m + 1, q, out.push('\n'), map.push(host_at(s, m + 1)));
        lemma_blank_inner_lines(s, m + 1, q, out.push(' '), map);
        lemma_blank_inner_lines(s, m + 1, q, out.push('\r'), map);
    }
}

proof fn lemma_blank_scan_lines(s: Seq<char>, k: int, depth: nat, out: Seq<char>, map: Seq<HostPos>)
    requires
        one_entry_per_line(out, map),
    ensures
        ({
            let r = blank_scan(s, k, depth, out, map);
            one_entry_per_line(r.1, r.2)
        }),
    decreases s.len() - k,
{
    lemma_count_push(out, ' ');
    lemma_count_push(out, '\n');
    lemma_count_push(out, '\r');
    if 0 <= k < s.len() {
        let c = s[k];
        if c == '{' {
            lemma_blank_scan_lines(s, k + 1, depth + 1, out.push(' '), map);
        } else if c == '}' {
            if depth > 1 {
                lemma_blank_scan_lines(s, k + 1, (depth - 1) as nat, out.push(' '), map);
            }
        } else if c == '\'' || c == '"' {
            lemma_blank_inner_lines(s, k + 1, c, out.push(' '), map);
            let r = blank_string_spec(s, k + 1, c, out.push(' '), map);
            if k < r.0 <= s.len() {
                lemma_blank_scan_lines(s, r.0, depth, r.1, r.2);
            }
        } else if c == '`' {
            lemma_blank_inner_lines(s, k + 1, c, out.push(' '), map);
            let r = blank_nested_spec(s, k + 1, out.push(' '), map);
            if k < r.0 <= s.len() {
                lemma_blank_scan_lines(s, r.0, depth, r.1, r.2);
            }
        } else if c == '\n' {
            lemma_blank_scan_lines(s, k + 1, depth, out.push('\n'), map.push(host_at(s, k + 1)));
        } else if c == '\r' {
            lemma_blank_scan_lines(s, k + 1, depth, out.push('\r'), map);
        } else {
            lemma_blank_scan_lines(s, k + 1, depth, out.push(' '), map);
        }
    }
}

proof fn lemma_read_lines(s: Seq<char>, j: int, out: Seq<char>, map: Seq<HostPos>, interp: bool)
    requires
        one_entry_per_line(out, map),
    ensures
        ({
            let r = read_from(s, j, out, map, interp);
            one_entry_per_line(r.0, r.1)
        }),
    decreases s.len() - j,
{
    lemma_read_step(s, j, out, map, interp);
    lemma_count_push(out, '\n');
    lemma_count_push(out, '\\');
    if 0 <= j < s.len() {
        let k = j + 1;
        if s[j] == '\\' {
            if k < s.len() {
                lemma_count_push(out, s[k]);
                lemma_count_push(out.push('\\'), s[k]);
                let n = if k + 1 < s.len() && s[k + 1] == '\n' {
                    k + 2
                } else {
                    k + 1
                };
                let m2 = if line_empty(out) {
                    reanchor(map, host_at(s, n))
                } else {
                    map
                };
                let m3 = if line_empty(out) {
                    reanchor(map, host_at(s, k + 1))
                } else {
                    map
                };
                if s[k] == '\r' {
                    lemma_read_lines(s, n, out, m2, interp);
                } else if s[k] == '\n' {
                    lemma_read_lines(s, k + 1, out, m3, interp);
                } else if s[k] == '`' || s[k] == '$' || s[k] == '\\' {
                    lemma_read_lines(s, k + 1, out.push(s[k]), map, interp);
                } else {
                    lemma_read_lines(s, k + 1, out.push('\\').push(s[k]), map, interp);
                }
            }
        } else if s[j] == '$' && j + 1 < s.len() && s[j + 1] == '{' {
            lemma_count_push(out, ' ');
            lemma_count_push(out.push(' '), ' ');
            lemma_blank_scan_lines(s, j + 2, 1, out.push(' ').push(' '), map);
            let r = blank_scan(s, j + 2, 1, out.push(' ').push(' '), map);
            if j < r.0 <= s.len() {
                lemma_read_lines(s, r.0, r.1, r.2, true);
            }
        } else if s[j] == '\n' {
            lemma_read_lines(s, j + 1, out.push('\n'), map.push(host_at(s, j + 1)), interp);
        } else if s[j] != '`' {
            lemma_count_push(out, s[j]);
            lemma_read_lines(s, j + 1, out.push(s[j]), map, interp);
        }
    }
}

proof fn lemma_extract_lines(s: Seq<char>, i: int, acc: Seq<EmbeddedModel>)
    requires
        forall|k: int| 0 <= k < acc.len() ==> one_entry_per_line((#[trigger] acc[k]).source, acc[k].line_map),
    ensures
        forall|k: int| 0 <= k < extract_from(s, i, acc).len() ==> one_entry_per_line(
            (#[trigger] extract_from(s, i, acc)[k]).source,
            extract_from(s, i, acc)[k].line_map,
        ),
    decreases s.len() - i,
{
    lemma_extract_step(s, i, acc);
    if 0 <= i < s.len() {
        let n = extract_step(s, i, acc);
        assert forall|k: int| 0 <= k < n.1.len() implies one_entry_per_line((#[trigger] n.1[k]).source, n.1[k].line_map) by {
            if k < acc.len() {
                assert(n.1[k] == acc[k]);
            } else {
                let j = n.1[k];
                // A shader found here: its template was read from an empty source
                // with one entry for its first line.
                assert(one_entry_per_line(Seq::<char>::empty(), seq![host_at(s, 0)])) by {
                    assert(newline_count(Seq::<char>::empty()) == 0);
                }
                let c = s[i];
                if c == '/' {
                    let b = block_comment(s, i);
                    let w = ws_end(s, b.0);
                    lemma_read_lines(s, w + 1, seq![], seq![host_at(s, w + 1)], false);
                } else {
                    let e = ident_end(s, i);
                    let w = ws_end(s, e);
                    lemma_read_lines(s, w + 1, seq![], seq![host_at(s, w + 1)], false);
                }
            }
        }
        if i < n.0 <= s.len() {
            lemma_extract_lines(s, n.0, n.1);
        }
    }
}

/// Every shader found in a JS/TS source has exactly one host anchor per line of
/// its reconstructed GLSL (so at least one), which is what lets a diagnostic on
/// source line `n` land on the host line and column `line_map[n - 1]` names.
pub proof fn lemma_extracted_shaders_map_every_line(source: Seq<char>)
    ensures
        forall|k: int| 0 <= k < extract_from(source, 0, seq![]).len() ==> {
            let e = #[trigger] extract_from(source, 0, seq![])[k];
            e.line_map.len() == newline_count(e.source) + 1
        },
{
    lemma_extract_lines(source, 0, seq![]);
}

/// A JavaScript identifier (ASCII): a letter, `_` or `$`, then letters,
/// digits, `_` or `$`.
pub open spec fn is_js_ident(n: Seq<char>) -> bool {
    &&& n.len() > 0
    &&& is_ident_start_spec(n[0])
    &&& forall|k: int| 0 <= k < n.len() ==> is_ident_char_spec(#[trigger] n[k])
}

proof fn lemma_ident_back_chars(s: Seq<char>, i: int)
    requires
        0 <= i <= s.len(),
    ensures
        forall|k: int| ident_back(s, i) <= k < i ==> is_ident_char_spec(#[trigger] s[k]),
    decreases i,
{
    lemma_back_bounds(s, i);
    if i > 0 && is_ident_char_spec(s[i - 1]) {
        lemma_ident_back_chars(s, i - 1);
    }
}

proof fn lemma_binding_is_ident(s: Seq<char>, i: int)
    requires
        0 <= i <= s.len(),
    ensures
        binding_before_spec(s, i) matches Some(n) ==> is_js_ident(n),
{
    lemma_back_bounds(s, i);
    let i1 = ws_back(s, i);
    if i1 > 0 {
        lemma_back_bounds(s, i1 - 1);
        let end = ws_back(s, i1 - 1);
        lemma_back_bounds(s, end);
        lemma_ident_back_chars(s, end);
        let st = ident_back(s, end);
        if let Some(n) = binding_before_spec(s, i) {
            assert(n == s.subrange(st, end));
            assert forall|k: int| 0 <= k < n.len() implies is_ident_char_spec(#[trigger] n[k]) by {
                assert(n[k] == s[st + k]);
            }
        }
    }
}

proof fn lemma_extract_names(s: Seq<char>, i: int, acc: Seq<EmbeddedModel>)
    requires
        forall|k: int| 0 <= k < acc.len() ==> ((#[trigger] acc[k]).name matches Some(n) ==> is_js_ident(n)),
    ensures
        forall|k: int| 0 <= k < extract_from(s, i, acc).len() ==> ((#[trigger] extract_from(s, i, acc)[k]).name matches Some(
            n,
        ) ==> is_js_ident(n)),
    decreases s.len() - i,
{
    lemma_extract_step(s, i, acc);
    if 0 <= i < s.len() {
        let n = extract_step(s, i, acc);
        lemma_binding_is_ident(s, i);
        assert forall|k: int| 0 <= k < n.1.len() implies ((#[trigger] n.1[k]).name matches Some(x) ==> is_js_ident(x)) by {
            if k < acc.len() {
                assert(n.1[k] == acc[k]);
            }
        }
        if i < n.0 <= s.len() {
            lemma_extract_names(s, n.0, n.1);
        }
    }
}

/// The binding name found for a shader in a JS/TS source, when there is one,
/// is a JavaScript identifier.
pub proof fn lemma_extracted_binding_names_are_identifiers(source: Seq<char>)
    ensures
        forall|k: int| 0 <= k < extract_from(source, 0, seq![]).len() ==> ((#[trigger] extract_from(
            source,
            0,
            seq![],
        )[k]).name matches Some(n) ==> is_js_ident(n)),
{
    lemma_extract_names(source, 0, seq![]);
}

proof fn lemma_extract_inference(s: Seq<char>, i: int, acc: Seq<EmbeddedModel>)
    requires
        forall|k: int| 0 <= k < acc.len() ==> ((#[trigger] acc[k]).stage, acc[k].has_entry) == infer_stage_spec(
            acc[k].name,
            acc[k].source,
        ),
    ensures
        forall|k: int| 0 <= k < extract_from(s, i, acc).len() ==> ((#[trigger] extract_from(s, i, acc)[k]).stage,
            extract_from(s, i, acc)[k].has_entry) == infer_stage_spec(
            extract_from(s, i, acc)[k].name,
            extract_from(s, i, acc)[k].source,
        ),
    decreases s.len() - i,
{
    lemma_extract_step(s, i, acc);
    if 0 <= i < s.len() {
        let n = extract_step(s, i, acc);
        assert forall|k: int| 0 <= k < n.1.len() implies ((#[trigger] n.1[k]).stage, n.1[k].has_entry)
            == infer_stage_spec(n.1[k].name, n.1[k].source) by {
            if k < acc.len() {
                assert(n.1[k] == acc[k]);
            }
        }
        if i < n.0 <= s.len() {
            lemma_extract_inference(s, n.0, n.1);
        }
    }
}

/// Every shader found in a JS/TS source is classified by its own code with the
/// comments blanked out: it has an entry point exactly when that code holds a
/// whole-word `main` right after a whole-word `void`; its stage is compute when
/// the code has `local_size_x` or a compute builtin, else vertex for a
/// vertex-only builtin, else fragment for a fragment-only one, else what its
/// binding name hints, else fragment.
pub proof fn lemma_extracted_stage_and_entry_come_from_the_code(source: Seq<char>)
    ensures
        forall|k: int| 0 <= k < extract_from(source, 0, seq![]).len() ==> {
            let e = #[trigger] extract_from(source, 0, seq![])[k];
            let code = blank_comments_spec(e.source);
            &&& e.has_entry == has_entry_point_spec(code)
            &&& e.stage == match builtin_stage_spec(code) {
                Some(st) => st,
                None => match name_stage_spec(e.name) {
                    Some(st) => st,
                    None => Stage::Fragment,
                },
            }
        },
{
    lemma_extract_inference(source, 0, seq![]);
}

} // verus!
