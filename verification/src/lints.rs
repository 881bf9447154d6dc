//! Lint passes that run on the original source text — checks beyond "does it
//! compile". Rules here must be zero-false-positive: they only fire on the
//! author's own lines (never injected code) and on patterns that are
//! unambiguously wrong.

use vstd::prelude::*;
use crate::diagnostics::{Diag, DiagModel, Severity, diags_view, push_diag};
use crate::text::{
    contains, contains_exec, find_from, find_from_exec, lead_ws, lines, skip_ws_from, slice_vec,
    split_lines, starts_with, starts_with_exec, to_chars, trim_start, trim_start_vec, vviews, lemma_lines_shorter,
    lines_fit,
};

verus! {

/// `(needle, message, highlighted length)`.
pub type LintEntry = (&'static str, &'static str, u32);

/// GLSL ES 1.00 builtins removed in `#version 300 es`, matched anywhere in code.
pub open spec fn removed_table() -> Seq<(Seq<char>, Seq<char>, u32)> {
    seq![
        ("gl_FragColor"@, "`gl_FragColor` was removed in GLSL ES 3.00 — declare `out vec4` and write to it"@, 12u32),
        ("gl_FragData"@, "`gl_FragData` was removed in GLSL ES 3.00 — use a user-declared `out` array"@, 11u32),
        ("texture2D("@, "`texture2D()` was removed in GLSL ES 3.00 — use `texture()`"@, 9u32),
        ("texture2DLod("@, "`texture2DLod()` was removed in GLSL ES 3.00 — use `textureLod()`"@, 12u32),
        ("textureCube("@, "`textureCube()` was removed in GLSL ES 3.00 — use `texture()`"@, 11u32),
    ]
}

/// GLSL ES 1.00 storage qualifiers, matched only at the start of a line.
pub open spec fn qualifier_table() -> Seq<(Seq<char>, Seq<char>, u32)> {
    seq![
        ("varying "@, "`varying` is GLSL ES 1.00 — use `in`/`out` in ES 3.00"@, 7u32),
        ("attribute "@, "`attribute` is GLSL ES 1.00 — use `in` in ES 3.00"@, 9u32),
    ]
}

pub open spec fn table_view(v: Seq<LintEntry>) -> Seq<(Seq<char>, Seq<char>, u32)> {
    v.map_values(|e: LintEntry| (e.0@, e.1@, e.2))
}

fn removed_entries() -> (r: Vec<LintEntry>)
    ensures
        table_view(r@) == removed_table(),
{
    let mut v: Vec<LintEntry> = Vec::new();
    v.push(("gl_FragColor", "`gl_FragColor` was removed in GLSL ES 3.00 — declare `out vec4` and write to it", 12));
    v.push(("gl_FragData", "`gl_FragData` was removed in GLSL ES 3.00 — use a user-declared `out` array", 11));
    v.push(("texture2D(", "`texture2D()` was removed in GLSL ES 3.00 — use `texture()`", 9));
    v.push(("texture2DLod(", "`texture2DLod()` was removed in GLSL ES 3.00 — use `textureLod()`", 12));
    v.push(("textureCube(", "`textureCube()` was removed in GLSL ES 3.00 — use `texture()`", 11));
    assert(table_view(v@) =~= removed_table());
    v
}

fn qualifier_entries() -> (r: Vec<LintEntry>)
    ensures
        table_view(r@) == qualifier_table(),
{
    let mut v: Vec<LintEntry> = Vec::new();
    v.push(("varying ", "`varying` is GLSL ES 1.00 — use `in`/`out` in ES 3.00", 7));
    v.push(("attribute ", "`attribute` is GLSL ES 1.00 — use `in` in ES 3.00", 9));
    assert(table_view(v@) =~= qualifier_table());
    v
}

/// A source targets GLSL ES 3.00: some line starts (after indentation) with
/// `#version` and mentions both `300` and `es`.
pub open spec fn is_es3(source: Seq<char>) -> bool {
    exists|i: int| 0 <= i < lines(source).len() && is_es3_line(#[trigger] lines(source)[i])
}

pub open spec fn is_es3_line(l: Seq<char>) -> bool {
    let t = trim_start(l);
    starts_with(t, "#version"@) && contains(t, "300"@) && contains(t, "es"@)
}

/// The part of a line before its first `//`.
pub open spec fn code_of(line: Seq<char>) -> Seq<char> {
    match find_from(line, "//"@, 0) {
        Some(k) => line.take(k),
        None => line,
    }
}

pub open spec fn lint_diag(target: Seq<char>, line: u32, col: int, len: u32, msg: Seq<char>) -> DiagModel {
    DiagModel {
        path: target,
        line,
        col: col as u32,
        len,
        severity: Severity::Warning,
        message: msg,
        source: "lint"@,
    }
}

/// One warning per removed builtin that occurs in `code`, at its first occurrence.
pub open spec fn removed_hits(target: Seq<char>, line: u32, code: Seq<char>, k: int) -> Seq<DiagModel>
    decreases k,
{
    if k <= 0 {
        seq![]
    } else {
        let e = removed_table()[k - 1];
        removed_hits(target, line, code, k - 1) + match find_from(code, e.0, 0) {
            Some(b) => seq![lint_diag(target, line, b + 1, e.2, e.1)],
            None => seq![],
        }
    }
}

/// One warning per legacy qualifier that begins the (indented) code.
pub open spec fn qualifier_hits(target: Seq<char>, line: u32, code: Seq<char>, k: int) -> Seq<DiagModel>
    decreases k,
{
    if k <= 0 {
        seq![]
    } else {
        let e = qualifier_table()[k - 1];
        qualifier_hits(target, line, code, k - 1) + if starts_with(trim_start(code), e.0) {
            seq![lint_diag(target, line, lead_ws(code) + 1, e.2, e.1)]
        } else {
            seq![]
        }
    }
}

/// The warnings for 0-based line `i`.
pub open spec fn line_lints(target: Seq<char>, i: int, line: Seq<char>) -> Seq<DiagModel> {
    let code = code_of(line);
    removed_hits(target, (i + 1) as u32, code, 5) + qualifier_hits(target, (i + 1) as u32, code, 2)
}

pub open spec fn lints_upto(target: Seq<char>, ls: Seq<Seq<char>>, k: int) -> Seq<DiagModel>
    decreases k,
{
    if k <= 0 {
        seq![]
    } else {
        lints_upto(target, ls, k - 1) + line_lints(target, k - 1, ls[k - 1])
    }
}

/// `es3-legacy`: in a `#version 300 es` source, every GLSL ES 1.00 builtin or
/// qualifier that was removed in 3.00, line by line; nothing otherwise.
pub open spec fn run_lints_spec(target: Seq<char>, source: Seq<char>) -> Seq<DiagModel> {
    if is_es3(source) {
        lints_upto(target, lines(source), lines(source).len() as int)
    } else {
        seq![]
    }
}

/// Run every lint over `source` (the text of `target`).
pub fn run_lints(target: &str, source: &str) -> (r: Vec<Diag>)
    requires
        lines_fit(source@),
    ensures
        diags_view(r@) == run_lints_spec(target@, source@),
{
    let mut out: Vec<Diag> = Vec::new();
    es3_legacy(target, source, &mut out);
    proof {
        assert(diags_view(out@) =~= Seq::<DiagModel>::empty() + run_lints_spec(target@, source@));
    }
    out
}

fn is_es3_exec(ls: &Vec<Vec<char>>) -> (r: bool)
    ensures
        r == (exists|i: int| 0 <= i < ls@.len() && is_es3_line(#[trigger] vviews(ls@)[i])),
{
    let kw = to_chars("#version");
    let a = to_chars("300");
    let b = to_chars("es");
    let mut i: usize = 0;
    while i < ls.len()
        invariant
            0 <= i <= ls.len(),
            kw@ == "#version"@,
            a@ == "300"@,
            b@ == "es"@,
            forall|j: int| 0 <= j < i ==> !is_es3_line(#[trigger] vviews(ls@)[j]),
        decreases ls.len() - i,
    {
        let t = trim_start_vec(ls[i].as_slice());
        proof {
            assert(vviews(ls@)[i as int] == ls@[i as int]@);
        }
        if starts_with_exec(t.as_slice(), kw.as_slice()) && contains_exec(t.as_slice(), a.as_slice())
            && contains_exec(t.as_slice(), b.as_slice()) {
            return true;
        }
        i = i + 1;
    }
    false
}

/// `es3-legacy`: GLSL ES 1.00 builtins/qualifiers that are removed in
/// `#version 300 es`. These compile under ES2 but are errors under WebGL2.
pub fn es3_legacy(target: &str, source: &str, out: &mut Vec<Diag>)
    requires
        lines_fit(source@),
    ensures
        diags_view(final(out)@) == diags_view(old(out)@) + run_lints_spec(target@, source@),
{
    let src = to_chars(source);
    let ls = split_lines(src.as_slice());
    let ghost lv = vviews(ls@);
    let ghost start = diags_view(out@);
    proof {
        lemma_lines_shorter(source@);
    }
    if !is_es3_exec(&ls) {
        proof {
            assert(!is_es3(source@));
            assert(diags_view(out@) =~= start + run_lints_spec(target@, source@));
        }
        return;
    }
    let mut i: usize = 0;
    assert(start + lints_upto(target@, lv, 0) =~= start);
    while i < ls.len()
        invariant
            0 <= i <= ls.len(),
            lv == vviews(ls@),
            lv == lines(source@),
            ls.len() < u32::MAX,
            forall|j: int| 0 <= j < lv.len() ==> (#[trigger] lv[j]).len() < u32::MAX,
            diags_view(out@) == start + lints_upto(target@, lv, i as int),
        decreases ls.len() - i,
    {
        proof {
            assert(lv[i as int] == ls@[i as int]@);
        }
        line_lints_exec(target, i, ls[i].as_slice(), out);
        proof {
            assert(diags_view(out@) =~= start + lints_upto(target@, lv, i + 1));
        }
        i = i + 1;
    }
    proof {
        assert(is_es3(source@));
    }
}

/// The warnings for 0-based line `i`, appended to `out`.
fn line_lints_exec(target: &str, i: usize, line: &[char], out: &mut Vec<Diag>)
    requires
        i < u32::MAX,
        line@.len() < u32::MAX,
    ensures
        diags_view(final(out)@) == diags_view(old(out)@) + line_lints(target@, i as int, line@),
{
    let slash = to_chars("//");
    let code = match find_from_exec(line, slash.as_slice(), 0) {
        Some(k) => slice_vec(line, 0, k),
        None => slice_vec(line, 0, line.len()),
    };
    proof {
        assert(line@.subrange(0, line@.len() as int) == line@);
        assert(code@ == code_of(line@));
    }
    let lineno = (i as u32) + 1;
    let ghost before = diags_view(out@);
    push_removed_hits(target, lineno, code.as_slice(), out);
    let ghost mid = diags_view(out@);
    push_qualifier_hits(target, lineno, code.as_slice(), out);
    proof {
        let a = removed_hits(target@, lineno, code@, 5);
        let b = qualifier_hits(target@, lineno, code@, 2);
        assert(before + a + b =~= before + (a + b));
    }
}

fn push_removed_hits(target: &str, lineno: u32, code: &[char], out: &mut Vec<Diag>)
    requires
        code@.len() < u32::MAX,
    ensures
        diags_view(final(out)@) == diags_view(old(out)@) + removed_hits(target@, lineno, code@, 5),
{
    let removed = removed_entries();
    let ghost before = diags_view(out@);
    let mut k: usize = 0;
    assert(before + removed_hits(target@, lineno, code@, 0) =~= before);
    while k < removed.len()
        invariant
            0 <= k <= removed.len(),
            table_view(removed@) == removed_table(),
            code@.len() < u32::MAX,
            diags_view(out@) == before + removed_hits(target@, lineno, code@, k as int),
        decreases removed.len() - k,
    {
        let (needle, msg, len) = removed[k];
        let nc = to_chars(needle);
        proof {
            assert(removed_table()[k as int] == (needle@, msg@, len));
        }
        let ghost b0 = diags_view(out@);
        match find_from_exec(code, nc.as_slice(), 0) {
            Some(b) => {
                push_diag(out, Diag {
                    path: target.to_owned(),
                    line: lineno,
                    col: (b as u32) + 1,
                    len,
                    severity: Severity::Warning,
                    message: msg.to_owned(),
                    source: "lint".to_owned(),
                });
            },
            None => {},
        }
        proof {
            assert(diags_view(out@) =~= before + removed_hits(target@, lineno, code@, k + 1));
        }
        k = k + 1;
    }
    assert(removed@.len() == table_view(removed@).len());
}

fn push_qualifier_hits(target: &str, lineno: u32, code: &[char], out: &mut Vec<Diag>)
    requires
        code@.len() < u32::MAX,
    ensures
        diags_view(final(out)@) == diags_view(old(out)@) + qualifier_hits(target@, lineno, code@, 2),
{
    let quals = qualifier_entries();
    let ghost mid = diags_view(out@);
    let indent = skip_ws_from(code, 0, code.len());
    let trimmed = slice_vec(code, indent, code.len());
    proof {
        assert(code@.subrange(0, code@.len() as int) == code@);
        assert(trimmed@ == trim_start(code@));
    }
    let mut q: usize = 0;
    assert(mid + qualifier_hits(target@, lineno, code@, 0) =~= mid);
    while q < quals.len()
        invariant
            0 <= q <= quals.len(),
            table_view(quals@) == qualifier_table(),
            trimmed@ == trim_start(code@),
            indent as int == lead_ws(code@),
            indent <= code@.len() < u32::MAX,
            diags_view(out@) == mid + qualifier_hits(target@, lineno, code@, q as int),
        decreases quals.len() - q,
    {
        let (needle, msg, len) = quals[q];
        let nc = to_chars(needle);
        proof {
            assert(qualifier_table()[q as int] == (needle@, msg@, len));
        }
        if starts_with_exec(trimmed.as_slice(), nc.as_slice()) {
            push_diag(out, Diag {
                path: target.to_owned(),
                line: lineno,
                col: (indent as u32) + 1,
                len,
                severity: Severity::Warning,
                message: msg.to_owned(),
                source: "lint".to_owned(),
            });
        }
        proof {
            assert(diags_view(out@) =~= mid + qualifier_hits(target@, lineno, code@, q + 1));
        }
        q = q + 1;
    }
    assert(quals@.len() == table_view(quals@).len());
}

// ---------------------------------------------------------------------------
// Laws
// ---------------------------------------------------------------------------

/// The GLSL ES 1.00 names the lints know, as highlighted.
pub open spec fn legacy_names() -> Seq<Seq<char>> {
    seq!["gl_FragColor"@, "gl_FragData"@, "texture2D"@, "texture2DLod"@, "textureCube"@, "varying"@, "attribute"@]
}

/// `d` is a lint warning on `target` whose highlighted span, on a line of
/// `source`, is a legacy name written in code (before any `//` comment).
pub open spec fn flags_legacy_token(target: Seq<char>, source: Seq<char>, d: DiagModel) -> bool {
    &&& d.path == target
    &&& d.severity == Severity::Warning
    &&& d.source == "lint"@
    &&& 1 <= d.line <= lines(source).len()
    &&& 1 <= d.col
    &&& d.col - 1 + d.len <= code_of(lines(source)[d.line - 1]).len()
    &&& legacy_names().contains(code_of(lines(source)[d.line - 1]).subrange(d.col - 1, d.col - 1 + d.len))
}

/// The span text `[c - 1, c - 1 + n)` of `code` is a legacy name.
pub open spec fn span_is_legacy(code: Seq<char>, c: u32, n: u32) -> bool {
    &&& 1 <= c
    &&& c - 1 + n <= code.len()
    &&& legacy_names().contains(code.subrange(c - 1, c - 1 + n))
}

proof fn lemma_tables_name_legacy_tokens()
    ensures
        forall|i: int| 0 <= i < 5 ==> (#[trigger] removed_table()[i]).2 <= removed_table()[i].0.len()
            && legacy_names().contains(removed_table()[i].0.take(removed_table()[i].2 as int)),
        forall|i: int| 0 <= i < 2 ==> (#[trigger] qualifier_table()[i]).2 <= qualifier_table()[i].0.len()
            && legacy_names().contains(qualifier_table()[i].0.take(qualifier_table()[i].2 as int)),
{
    reveal_strlit("gl_FragColor");
    reveal_strlit("gl_FragData");
    reveal_strlit("texture2D(");
    reveal_strlit("texture2D");
    reveal_strlit("texture2DLod(");
    reveal_strlit("texture2DLod");
    reveal_strlit("textureCube(");
    reveal_strlit("textureCube");
    reveal_strlit("varying ");
    reveal_strlit("varying");
    reveal_strlit("attribute ");
    reveal_strlit("attribute");
    let n = legacy_names();
    assert(removed_table()[0].0.take(12) =~= n[0]);
    assert(removed_table()[1].0.take(11) =~= n[1]);
    assert(removed_table()[2].0.take(9) =~= n[2]);
    assert(removed_table()[3].0.take(12) =~= n[3]);
    assert(removed_table()[4].0.take(11) =~= n[4]);
    assert(qualifier_table()[0].0.take(7) =~= n[5]);
    assert(qualifier_table()[1].0.take(9) =~= n[6]);
    assert forall|i: int| 0 <= i < 5 implies (#[trigger] removed_table()[i]).2 <= removed_table()[i].0.len()
        && legacy_names().contains(removed_table()[i].0.take(removed_table()[i].2 as int)) by {
        assert(n[i] == removed_table()[i].0.take(removed_table()[i].2 as int));
    }
    assert forall|i: int| 0 <= i < 2 implies (#[trigger] qualifier_table()[i]).2 <= qualifier_table()[i].0.len()
        && legacy_names().contains(qualifier_table()[i].0.take(qualifier_table()[i].2 as int)) by {
        assert(n[5 + i] == qualifier_table()[i].0.take(qualifier_table()[i].2 as int));
    }
}

proof fn lemma_removed_hits_are_legacy(target: Seq<char>, line: u32, code: Seq<char>, k: int)
    requires
        0 <= k <= 5,
        code.len() < u32::MAX,
    ensures
        forall|j: int| 0 <= j < removed_hits(target, line, code, k).len() ==> {
            let d = #[trigger] removed_hits(target, line, code, k)[j];
            &&& d.path == target && d.severity == Severity::Warning && d.source == "lint"@ && d.line == line
            &&& span_is_legacy(code, d.col, d.len)
        },
    decreases k,
{
    if k > 0 {
        lemma_removed_hits_are_legacy(target, line, code, k - 1);
        lemma_tables_name_legacy_tokens();
        let e = removed_table()[k - 1];
        crate::text::lemma_find_from(code, e.0, 0);
        let prev = removed_hits(target, line, code, k - 1);
        let r = removed_hits(target, line, code, k);
        assert forall|j: int| 0 <= j < r.len() implies {
            let d = #[trigger] r[j];
            &&& d.path == target && d.severity == Severity::Warning && d.source == "lint"@ && d.line == line
            &&& span_is_legacy(code, d.col, d.len)
        } by {
            if j < prev.len() {
                assert(r[j] == prev[j]);
            } else {
                let b = find_from(code, e.0, 0).unwrap();
                let d = r[j];
                assert(d == lint_diag(target, line, b + 1, e.2, e.1));
                assert(d.col == b + 1);
                assert(code.subrange(b, b + e.2) =~= code.subrange(b, b + e.0.len()).take(e.2 as int));
            }
        }
    }
}

proof fn lemma_qualifier_hits_are_legacy(target: Seq<char>, line: u32, code: Seq<char>, k: int)
    requires
        0 <= k <= 2,
        code.len() < u32::MAX,
    ensures
        forall|j: int| 0 <= j < qualifier_hits(target, line, code, k).len() ==> {
            let d = #[trigger] qualifier_hits(target, line, code, k)[j];
            &&& d.path == target && d.severity == Severity::Warning && d.source == "lint"@ && d.line == line
            &&& span_is_legacy(code, d.col, d.len)
        },
    decreases k,
{
    if k > 0 {
        lemma_qualifier_hits_are_legacy(target, line, code, k - 1);
        lemma_tables_name_legacy_tokens();
        crate::text::lemma_lead_ws_bounds(code);
        let e = qualifier_table()[k - 1];
        let lead = lead_ws(code);
        let prev = qualifier_hits(target, line, code, k - 1);
        let r = qualifier_hits(target, line, code, k);
        assert forall|j: int| 0 <= j < r.len() implies {
            let d = #[trigger] r[j];
            &&& d.path == target && d.severity == Severity::Warning && d.source == "lint"@ && d.line == line
            &&& span_is_legacy(code, d.col, d.len)
        } by {
            if j < prev.len() {
                assert(r[j] == prev[j]);
            } else {
                let d = r[j];
                assert(d == lint_diag(target, line, lead + 1, e.2, e.1));
                assert(code.skip(lead).subrange(0, e.0.len() as int) == e.0);
                assert(code.subrange(lead, lead + e.2) =~= code.skip(lead).subrange(0, e.0.len() as int).take(e.2 as int));
            }
        }
    }
}

proof fn lemma_lints_upto_are_legacy(target: Seq<char>, ls: Seq<Seq<char>>, k: int)
    requires
        0 <= k <= ls.len(),
        ls.len() < u32::MAX,
        forall|i: int| 0 <= i < ls.len() ==> (#[trigger] ls[i]).len() < u32::MAX,
    ensures
        forall|j: int| 0 <= j < lints_upto(target, ls, k).len() ==> {
            let d = #[trigger] lints_upto(target, ls, k)[j];
            &&& d.path == target && d.severity == Severity::Warning && d.source == "lint"@
            &&& 1 <= d.line <= k
            &&& span_is_legacy(code_of(ls[d.line - 1]), d.col, d.len)
        },
    decreases k,
{
    if k > 0 {
        lemma_lints_upto_are_legacy(target, ls, k - 1);
        let line = ls[k - 1];
        let code = code_of(line);
        crate::text::lemma_find_from(line, "//"@, 0);
        assert(code.len() <= line.len());
        let ln = k as u32;
        lemma_removed_hits_are_legacy(target, ln, code, 5);
        lemma_qualifier_hits_are_legacy(target, ln, code, 2);
        let prev = lints_upto(target, ls, k - 1);
        let here = line_lints(target, k - 1, line);
        let rh = removed_hits(target, ln, code, 5);
        let qh = qualifier_hits(target, ln, code, 2);
        assert(here == rh + qh);
        let r = lints_upto(target, ls, k);
        assert forall|j: int| 0 <= j < r.len() implies {
            let d = #[trigger] r[j];
            &&& d.path == target && d.severity == Severity::Warning && d.source == "lint"@
            &&& 1 <= d.line <= k
            &&& span_is_legacy(code_of(ls[d.line - 1]), d.col, d.len)
        } by {
            if j < prev.len() {
                assert(r[j] == prev[j]);
            } else if j < prev.len() + rh.len() {
                assert(r[j] == rh[j - prev.len()]);
            } else {
                assert(r[j] == qh[j - prev.len() - rh.len()]);
            }
        }
    }
}

/// The lints are zero-false-positive: every finding is a warning on the linted
/// file, on one of its own lines, highlighting a GLSL ES 1.00 name that is
/// written in code there (before any `//` comment).
pub proof fn lemma_lints_flag_only_legacy_tokens_in_code(target: Seq<char>, source: Seq<char>)
    requires
        lines_fit(source),
    ensures
        forall|j: int| 0 <= j < run_lints_spec(target, source).len() ==> flags_legacy_token(
            target,
            source,
            #[trigger] run_lints_spec(target, source)[j],
        ),
{
    if is_es3(source) {
        let ls = lines(source);
        lemma_lints_upto_are_legacy(target, ls, ls.len() as int);
    }
}

} // verus!
