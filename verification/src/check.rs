//! Translate glslangValidator's `0:LINE` diagnostics on an assembled unit back to
//! the original files via the line map.
//!
//! Running the validator is the caller's job (it is a subprocess); this module
//! takes what the run produced — its combined output and whether it succeeded,
//! or why it could not run — and decides every diagnostic.

use vstd::prelude::*;
use crate::assemble::{
    Assembled, AssembledModel, Loc, LocModel, assemble, assemble_spec, faithful_line,
    lemma_assembled_lines_come_from_their_sources, oloc,
};
use crate::workspace::line_counts_fit;
use crate::config::{Config, ConfigModel};
use crate::workspace::{Workspace, WorkspaceModel};
use crate::diagnostics::{Diag, DiagModel, Severity, append_diags, diags_view, push_diag};
use crate::lints::{run_lints, run_lints_spec};
use crate::path::{Component, components, components_exec, components_view};
use crate::text::{
    contains, contains_exec, find_from, find_from_exec, from_chars, index_of, index_of_from,
    is_alphanumeric, lines, parse_u32, parse_u32_spec, slice_vec, split_lines, str_lines, starts_with,
    starts_with_exec, to_chars, trim, trim_vec, unicode_alphanumeric, vviews, extend_chars, to_string, eq_chars,
};

verus! {

/// How a validator run went.
#[derive(Debug)]
pub enum RunOutcome {
    /// No validator binary could be found.
    NotFound,
    /// The validator could not be run; the operating system's explanation.
    Failed(String),
    /// The validator ran: everything it printed, and whether it exited successfully.
    Ran { output: String, success: bool },
}

// ---------------------------------------------------------------------------
// One diagnostic line
// ---------------------------------------------------------------------------

/// The body of a glslang diagnostic, `<str>:<line>: <message>`: both numbers
/// parse as `u32`, the message is the rest after the second `:` (trimmed), and the
/// offending token is the non-empty text between a leading `'` of the message and
/// the next `'`. `None` when there is no `<str>:<line>` prefix.
pub open spec fn parse_located_spec(rest: Seq<char>) -> Option<(u32, Option<Seq<char>>, Seq<char>)> {
    let k1 = index_of(rest, ':');
    let r2 = rest.skip(k1 + 1);
    let k2 = index_of(r2, ':');
    if k1 >= rest.len() || k2 >= r2.len() {
        None
    } else if parse_u32_spec(trim(rest.take(k1))) is None || parse_u32_spec(trim(r2.take(k2))) is None {
        None
    } else {
        let message = trim(r2.skip(k2 + 1));
        Some((parse_u32_spec(trim(r2.take(k2))).unwrap(), quoted_token(message), message))
    }
}

/// The non-empty text between a leading `'` and the next `'`.
pub open spec fn quoted_token(message: Seq<char>) -> Option<Seq<char>> {
    if message.len() > 0 && message[0] == '\'' {
        let after = message.drop_first();
        let end = index_of(after, '\'');
        if end < after.len() && end > 0 {
            Some(after.take(end))
        } else {
            None
        }
    } else {
        None
    }
}

fn quoted_token_exec(message: &[char]) -> (r: Option<Vec<char>>)
    ensures
        match r {
            Some(t) => quoted_token(message@) == Some(t@),
            None => quoted_token(message@) is None,
        },
{
    if message.len() > 0 && message[0] == '\'' {
        let after = slice_vec(message, 1, message.len());
        proof {
            assert(after@ == message@.drop_first());
        }
        let end = index_of_from(after.as_slice(), '\'', 0);
        proof {
            assert(after@.skip(0) == after@);
        }
        if end < after.len() && end > 0 {
            let t = slice_vec(after.as_slice(), 0, end);
            proof {
                assert(t@ == after@.take(end as int));
            }
            Some(t)
        } else {
            None
        }
    } else {
        None
    }
}

/// Parse the `<str>:<line>: 'token' : message` body of a glslang diagnostic into
/// `(line, token, message)`.
fn parse_located(rest: &[char]) -> (r: Option<(u32, Option<Vec<char>>, Vec<char>)>)
    ensures
        match r {
            Some((l, t, m)) => parse_located_spec(rest@) == Some(
                (
                    l,
                    match t {
                        Some(x) => Some(x@),
                        None => None,
                    },
                    m@,
                ),
            ),
            None => parse_located_spec(rest@) is None,
        },
{
    let k1 = index_of_from(rest, ':', 0);
    proof {
        assert(rest@.skip(0) == rest@);
    }
    if k1 >= rest.len() {
        return None;
    }
    let r2 = slice_vec(rest, k1 + 1, rest.len());
    proof {
        assert(r2@ == rest@.skip(k1 + 1));
    }
    let k2 = index_of_from(r2.as_slice(), ':', 0);
    proof {
        assert(r2@.skip(0) == r2@);
    }
    if k2 >= r2.len() {
        return None;
    }
    let a = slice_vec(rest, 0, k1);
    let b = slice_vec(r2.as_slice(), 0, k2);
    let c = slice_vec(r2.as_slice(), k2 + 1, r2.len());
    proof {
        assert(a@ == rest@.take(k1 as int));
        assert(b@ == r2@.take(k2 as int));
        assert(c@ == r2@.skip(k2 + 1));
    }
    let at = trim_vec(a.as_slice());
    let _str_no = match parse_u32(at.as_slice()) {
        Some(n) => n,
        None => return None,
    };
    let bt = trim_vec(b.as_slice());
    let lineno = match parse_u32(bt.as_slice()) {
        Some(n) => n,
        None => return None,
    };
    let message = trim_vec(c.as_slice());
    let token = quoted_token_exec(message.as_slice());
    Some((lineno, token, message))
}

/// Column (1-based char) and length of `token` within `line`, when it starts with
/// an alphanumeric or `_` and occurs verbatim (the first occurrence), and both
/// numbers fit in a `u32`.
pub open spec fn locate_token_spec(line: Seq<char>, token: Option<Seq<char>>) -> Option<(u32, u32)> {
    match token {
        None => None,
        Some(tok) => if tok.len() == 0 || !(unicode_alphanumeric(tok[0]) || tok[0] == '_') {
            None
        } else {
            match find_from(line, tok, 0) {
                Some(b) => if b + 1 <= u32::MAX && tok.len() <= u32::MAX {
                    Some(((b + 1) as u32, tok.len() as u32))
                } else {
                    None
                },
                None => None,
            }
        },
    }
}

/// Column and length of `token` within `line`, when it's an identifier-like
/// token present verbatim. `None` keeps the caller at column 1 — we never point at
/// a guessed location.
fn locate_token(line: &[char], token: &Option<Vec<char>>) -> (r: Option<(u32, u32)>)
    ensures
        r == locate_token_spec(
            line@,
            match token {
                Some(t) => Some(t@),
                None => None,
            },
        ),
{
    let tok = match token {
        Some(t) => t,
        None => return None,
    };
    if tok.len() == 0 {
        return None;
    }
    let first = tok[0];
    if !(is_alphanumeric(first) || first == '_') {
        return None;
    }
    match find_from_exec(line, tok.as_slice(), 0) {
        Some(b) => if b < 0xffff_ffffusize && tok.len() <= 0xffff_ffffusize {
            Some(((b as u32) + 1, tok.len() as u32))
        } else {
            None
        },
        None => None,
    }
}

pub const TRUNCATE_AT: usize = 200;

/// Messages longer than 200 characters are cut to their first 200 and marked `…`.
pub open spec fn truncate_spec(m: Seq<char>) -> Seq<char> {
    if m.len() > 200 {
        m.take(200).push('…')
    } else {
        m
    }
}

/// Cap message length. glslang inlines full type definitions into some messages,
/// which is unreadable in a terminal or an editor hover.
pub fn truncate_message(message: &[char]) -> (r: Vec<char>)
    ensures
        r@ == truncate_spec(message@),
        r@.len() <= TRUNCATE_AT + 1,
{
    if message.len() > TRUNCATE_AT {
        let mut t = slice_vec(message, 0, TRUNCATE_AT);
        t.push('…');
        t
    } else {
        slice_vec(message, 0, message.len())
    }
}

/// The diagnostic for assembled line `asm_line`: dropped when the line is
/// synthetic (or out of range), else at the original file and line, the column
/// refined from the token when it appears on the line.
pub open spec fn map_located_spec(
    a: AssembledModel,
    asm_line: u32,
    token: Option<Seq<char>>,
    severity: Severity,
    message: Seq<char>,
) -> Option<DiagModel> {
    let idx = asm_line - 1;
    if asm_line == 0 || idx >= a.map.len() || a.map[idx] is None {
        None
    } else {
        let loc = a.map[idx].unwrap();
        let ls = lines(a.source);
        let (col, len) = if idx < ls.len() {
            match locate_token_spec(ls[idx], token) {
                Some(p) => p,
                None => (1u32, 1u32),
            }
        } else {
            (1u32, 1u32)
        };
        Some(
            DiagModel {
                path: loc.path,
                line: loc.line,
                col,
                len,
                severity,
                message: truncate_spec(message),
                source: "glslang"@,
            },
        )
    }
}

/// Map a glslang `0:LINE` location to the original file.
fn map_located(
    a: &Assembled,
    src_lines: &Vec<Vec<char>>,
    asm_line: u32,
    token: &Option<Vec<char>>,
    severity: Severity,
    message: &[char],
) -> (r: Option<Diag>)
    requires
        vviews(src_lines@) == lines(a@.source),
    ensures
        match r {
            Some(d) => map_located_spec(
                a@,
                asm_line,
                match token {
                    Some(t) => Some(t@),
                    None => None,
                },
                severity,
                message@,
            ) == Some(d@),
            None => map_located_spec(
                a@,
                asm_line,
                match token {
                    Some(t) => Some(t@),
                    None => None,
                },
                severity,
                message@,
            ) is None,
        },
{
    if asm_line == 0 {
        return None;
    }
    let idx = (asm_line - 1) as usize;
    if idx >= a.map.len() {
        return None;
    }
    let loc = match &a.map[idx] {
        Some(l) => l,
        None => return None,
    };
    proof {
        assert(a@.map[idx as int] == oloc(a.map@[idx as int]));
    }
    let (col, len) = if idx < src_lines.len() {
        proof {
            assert(lines(a@.source)[idx as int] == src_lines@[idx as int]@);
        }
        match locate_token(src_lines[idx].as_slice(), token) {
            Some(p) => p,
            None => (1u32, 1u32),
        }
    } else {
        (1u32, 1u32)
    };
    let m = truncate_message(message);
    Some(Diag {
        path: loc.path.clone(),
        line: loc.line,
        col,
        len,
        severity,
        message: from_chars(m.as_slice()),
        source: "glslang".to_owned(),
    })
}

// ---------------------------------------------------------------------------
// Collapsing cascades
// ---------------------------------------------------------------------------

/// Two diagnostics are on the same line of the same file: their paths are equal
/// as `Path`s (component by component) and their lines are equal.
pub open spec fn same_key(a: DiagModel, b: DiagModel) -> bool {
    path_eq(a.path, b.path) && a.line == b.line
}

/// Keep the first diagnostic per `(path, line)`, in order, paths compared as
/// `Path`s.
pub open spec fn collapse_spec(ds: Seq<DiagModel>) -> Seq<DiagModel>
    decreases ds.len(),
{
    if ds.len() == 0 {
        seq![]
    } else {
        let prev = collapse_spec(ds.drop_last());
        if exists|j: int| 0 <= j < ds.len() - 1 && same_key(#[trigger] ds[j], ds.last()) {
            prev
        } else {
            prev.push(ds.last())
        }
    }
}

impl Diag {
    pub fn copy(&self) -> (r: Diag)
        ensures
            r@ == self@,
    {
        Diag {
            path: self.path.clone(),
            line: self.line,
            col: self.col,
            len: self.len,
            severity: self.severity,
            message: self.message.clone(),
            source: self.source.clone(),
        }
    }
}

/// Collapse glslang's per-line error cascade to its root cause: glslang emits the
/// root cause first, so keeping the first diagnostic per `(path, line)` drops the
/// derived noise.
pub fn collapse_per_line(diags: &Vec<Diag>) -> (r: Vec<Diag>)
    ensures
        diags_view(r@) == collapse_spec(diags_view(diags@)),
{
    let ghost dv = diags_view(diags@);
    let mut out: Vec<Diag> = Vec::new();
    let mut i: usize = 0;
    assert(diags_view(out@) =~= collapse_spec(dv.take(0)));
    while i < diags.len()
        invariant
            0 <= i <= diags.len(),
            dv == diags_view(diags@),
            diags_view(out@) == collapse_spec(dv.take(i as int)),
        decreases diags.len() - i,
    {
        let mut seen = false;
        let mut j: usize = 0;
        while j < i
            invariant
                0 <= j <= i < diags.len(),
                dv == diags_view(diags@),
                !seen ==> forall|k: int| 0 <= k < j ==> !same_key(#[trigger] dv[k], dv[i as int]),
                seen ==> exists|k: int| 0 <= k < i && same_key(#[trigger] dv[k], dv[i as int]),
            decreases i - j,
        {
            proof {
                assert(dv[j as int] == diags@[j as int]@);
                assert(dv[i as int] == diags@[i as int]@);
            }
            if !seen && diags[j].line == diags[i].line && path_equal(
                to_chars(diags[j].path.as_str()).as_slice(),
                to_chars(diags[i].path.as_str()).as_slice(),
            ) {
                proof {
                    assert(same_key(dv[j as int], dv[i as int]));
                }
                seen = true;
            }
            j = j + 1;
        }
        let ghost t = dv.take(i + 1);
        proof {
            assert(t.drop_last() =~= dv.take(i as int));
            assert(t.last() == dv[i as int]);
            if seen {
                let k = choose|k: int| 0 <= k < i && same_key(#[trigger] dv[k], dv[i as int]);
                assert(t[k] == dv[k]);
            } else {
                assert forall|k: int| 0 <= k < t.len() - 1 implies !same_key(#[trigger] t[k], t.last()) by {
                    assert(t[k] == dv[k]);
                }
            }
        }
        if !seen {
            push_diag(&mut out, diags[i].copy());
        }
        i = i + 1;
    }
    assert(dv.take(diags@.len() as int) =~= dv);
    out
}

// ---------------------------------------------------------------------------
// Whole validator output
// ---------------------------------------------------------------------------

/// `ERROR: ` or `WARNING: ` and the rest of the line.
pub open spec fn classify(line: Seq<char>) -> Option<(Severity, Seq<char>)> {
    if starts_with(line, "ERROR: "@) {
        Some((Severity::Error, line.skip(7)))
    } else if starts_with(line, "WARNING: "@) {
        Some((Severity::Warning, line.skip(9)))
    } else {
        None
    }
}

/// What one output line adds to the mapped and file-level diagnostics:
/// parse-cascade terminators, unmappable lines and the run summary add nothing.
#[verifier::opaque]
pub open spec fn scan_step(
    a: AssembledModel,
    line: Seq<char>,
    acc: (Seq<DiagModel>, Seq<(Severity, Seq<char>)>),
) -> (Seq<DiagModel>, Seq<(Severity, Seq<char>)>) {
    let (mapped, fileless) = acc;
    match classify(line) {
        None => (mapped, fileless),
        Some((sev, rest)) => match parse_located_spec(rest) {
            Some((ln, tok, msg)) => if contains(msg, "compilation terminated"@) {
                (mapped, fileless)
            } else {
                match map_located_spec(a, ln, tok, sev, msg) {
                    Some(d) => (mapped.push(d), fileless),
                    None => (mapped, fileless),
                }
            },
            None => {
                let msg = trim(rest);
                if contains(msg, "compilation error"@) || contains(msg, "compilation warning"@) {
                    (mapped, fileless)
                } else {
                    (mapped, fileless.push((sev, msg)))
                }
            },
        },
    }
}

/// Mapped diagnostics and file-level `(severity, message)`s of the first `k`
/// output lines.
pub open spec fn scan_output(a: AssembledModel, ls: Seq<Seq<char>>, k: int) -> (Seq<DiagModel>, Seq<(Severity, Seq<char>)>)
    decreases k,
{
    if k <= 0 {
        (seq![], seq![])
    } else {
        scan_step(a, ls[k - 1], scan_output(a, ls, k - 1))
    }
}

pub open spec fn fileless_view(v: Seq<(Severity, Vec<char>)>) -> Seq<(Severity, Seq<char>)> {
    v.map_values(|e: (Severity, Vec<char>)| (e.0, e.1@))
}

/// Apply one output line.
fn scan_line(
    a: &Assembled,
    src_lines: &Vec<Vec<char>>,
    line: &[char],
    mapped: &mut Vec<Diag>,
    fileless: &mut Vec<(Severity, Vec<char>)>,
)
    requires
        vviews(src_lines@) == lines(a@.source),
    ensures
        (diags_view(final(mapped)@), fileless_view(final(fileless)@)) == scan_step(
            a@,
            line@,
            (diags_view(old(mapped)@), fileless_view(old(fileless)@)),
        ),
{
    let ghost fb = fileless@;
    proof {
        reveal(scan_step);
    }
    match classify_exec(line) {
        None => {},
        Some((sev, rest)) => match parse_located(rest.as_slice()) {
            Some((ln, tok, msg)) => {
                let terminated = to_chars("compilation terminated");
                if !contains_exec(msg.as_slice(), terminated.as_slice()) {
                    match map_located(a, src_lines, ln, &tok, sev, msg.as_slice()) {
                        Some(d) => push_diag(mapped, d),
                        None => {},
                    }
                }
            },
            None => {
                let cerr = to_chars("compilation error");
                let cwarn = to_chars("compilation warning");
                let msg = trim_vec(rest.as_slice());
                if !(contains_exec(msg.as_slice(), cerr.as_slice()) || contains_exec(msg.as_slice(), cwarn.as_slice())) {
                    let ghost mv = msg@;
                    fileless.push((sev, msg));
                    proof {
                        assert(fileless_view(fileless@) =~= fileless_view(fb).push((sev, mv)));
                    }
                }
            },
        },
    }
}

/// A file-level message pinned to line 1 of the target.
pub open spec fn fileless_diag(target: Seq<char>, e: (Severity, Seq<char>)) -> DiagModel {
    DiagModel { path: target, line: 1, col: 1, len: 1, severity: e.0, message: e.1, source: "glslang"@ }
}

/// The mapped diagnostics, collapsed to the first per line; only when nothing
/// mapped, the file-level messages pinned to line 1.
pub open spec fn parse_output_spec(a: AssembledModel, output: Seq<char>) -> Seq<DiagModel> {
    let ls = lines(output);
    let (mapped, fileless) = scan_output(a, ls, ls.len() as int);
    if mapped.len() > 0 {
        collapse_spec(mapped)
    } else {
        fileless.map_values(|e: (Severity, Seq<char>)| fileless_diag(a.target, e))
    }
}

fn classify_exec(line: &[char]) -> (r: Option<(Severity, Vec<char>)>)
    ensures
        match r {
            Some((s, rest)) => classify(line@) == Some((s, rest@)),
            None => classify(line@) is None,
        },
{
    let e = to_chars("ERROR: ");
    let w = to_chars("WARNING: ");
    proof {
        reveal_strlit("ERROR: ");
        reveal_strlit("WARNING: ");
    }
    if starts_with_exec(line, e.as_slice()) {
        Some((Severity::Error, slice_vec(line, 7, line.len())))
    } else if starts_with_exec(line, w.as_slice()) {
        Some((Severity::Warning, slice_vec(line, 9, line.len())))
    } else {
        None
    }
}

/// Scan every output line, collecting mapped and file-level diagnostics.
fn scan_all(a: &Assembled, output: &str) -> (r: (Vec<Diag>, Vec<(Severity, Vec<char>)>))
    ensures
        (diags_view(r.0@), fileless_view(r.1@)) == scan_output(a@, lines(output@), lines(output@).len() as int),
{
    let src_lines = str_lines(a.source.as_str());
    let ls = str_lines(output);
    let ghost lv = vviews(ls@);
    let mut mapped: Vec<Diag> = Vec::new();
    let mut fileless: Vec<(Severity, Vec<char>)> = Vec::new();
    let mut i: usize = 0;
    proof {
        assert(diags_view(mapped@) =~= scan_output(a@, lv, 0).0);
        assert(fileless_view(fileless@) =~= scan_output(a@, lv, 0).1);
    }
    while i < ls.len()
        invariant
            0 <= i <= ls.len(),
            lv == vviews(ls@),
            vviews(src_lines@) == lines(a@.source),
            (diags_view(mapped@), fileless_view(fileless@)) == scan_output(a@, lv, i as int),
        decreases ls.len() - i,
    {
        proof {
            assert(lv[i as int] == ls@[i as int]@);
        }
        scan_line(a, &src_lines, ls[i].as_slice(), &mut mapped, &mut fileless);
        i = i + 1;
    }
    (mapped, fileless)
}

/// Parse glslangValidator's diagnostics and map each home.
pub fn parse_output(a: &Assembled, output: &str) -> (r: Vec<Diag>)
    ensures
        diags_view(r@) == parse_output_spec(a@, output@),
{
    let (mapped, fileless) = scan_all(a, output);
    if mapped.len() > 0 {
        return collapse_per_line(&mapped);
    }
    fileless_diags(a, &fileless)
}

fn fileless_diags(a: &Assembled, fileless: &Vec<(Severity, Vec<char>)>) -> (r: Vec<Diag>)
    ensures
        diags_view(r@) == fileless_view(fileless@).map_values(|e: (Severity, Seq<char>)| fileless_diag(a@.target, e)),
{
    let ghost fv = fileless_view(fileless@);
    let mut res: Vec<Diag> = Vec::new();
    let mut k: usize = 0;
    while k < fileless.len()
        invariant
            0 <= k <= fileless.len(),
            fv == fileless_view(fileless@),
            diags_view(res@) == fv.take(k as int).map_values(|e: (Severity, Seq<char>)| fileless_diag(a@.target, e)),
        decreases fileless.len() - k,
    {
        let sev = fileless[k].0;
        let m = &fileless[k].1;
        push_diag(&mut res, Diag {
            path: a.target.clone(),
            line: 1,
            col: 1,
            len: 1,
            severity: sev,
            message: from_chars(m.as_slice()),
            source: "glslang".to_owned(),
        });
        proof {
            assert(fv[k as int] == (sev, m@));
            assert(fv.take(k + 1) =~= fv.take(k as int).push(fv[k as int]));
            assert(diags_view(res@) =~= fv.take(k + 1).map_values(|e: (Severity, Seq<char>)| fileless_diag(a@.target, e)));
        }
        k = k + 1;
    }
    assert(fv.take(fileless@.len() as int) =~= fv);
    res
}

// ---------------------------------------------------------------------------
// One validator run
// ---------------------------------------------------------------------------

pub enum RunModel {
    NotFound,
    Failed(Seq<char>),
    Ran { output: Seq<char>, success: bool },
}

impl View for RunOutcome {
    type V = RunModel;

    open spec fn view(&self) -> RunModel {
        match self {
            RunOutcome::NotFound => RunModel::NotFound,
            RunOutcome::Failed(e) => RunModel::Failed(e@),
            RunOutcome::Ran { output, success } => RunModel::Ran { output: output@, success: *success },
        }
    }
}

pub open spec fn not_found_message() -> Seq<char> {
    "glslangValidator not found on PATH — install with `brew install glslang`, or set GLSLINT_GLSLANG to its path"@
}

/// A tooling failure, pinned to the target's first line.
pub open spec fn tool_error_spec(target: Seq<char>, message: Seq<char>) -> DiagModel {
    DiagModel { path: target, line: 1, col: 1, len: 1, severity: Severity::Error, message, source: "glslint"@ }
}

/// A diagnostic for a tooling failure (validator missing or crashed), pinned to
/// the target's first line so it's visible in both the CLI and the editor.
fn tool_error(a: &Assembled, message: String) -> (r: Diag)
    ensures
        r@ == tool_error_spec(a@.target, message@),
{
    Diag {
        path: a.target.clone(),
        line: 1,
        col: 1,
        len: 1,
        severity: Severity::Error,
        message,
        source: "glslint".to_owned(),
    }
}

/// A trimmed output line that names the failure: an `ERROR:` or `WARNING:` line
/// that is not the run summary.
pub open spec fn is_detail(t: Seq<char>) -> bool {
    (starts_with(t, "ERROR:"@) || starts_with(t, "WARNING:"@)) && !contains(t, "compilation error"@)
        && !contains(t, "compilation warning"@)
}

/// The first detail line among `ls`, trimmed.
pub open spec fn first_detail(ls: Seq<Seq<char>>) -> Option<Seq<char>>
    decreases ls.len(),
{
    if ls.len() == 0 {
        None
    } else if is_detail(trim(ls[0])) {
        Some(trim(ls[0]))
    } else {
        first_detail(ls.drop_first())
    }
}

/// What a failed run with nothing parseable is explained by.
pub open spec fn failure_detail_spec(output: Seq<char>) -> Seq<char> {
    match first_detail(lines(output)) {
        Some(t) => t,
        None => "unknown error"@,
    }
}

fn failure_detail(output: &str) -> (r: Vec<char>)
    ensures
        r@ == failure_detail_spec(output@),
{
    let ls = str_lines(output);
    let ghost lv = vviews(ls@);
    let e = to_chars("ERROR:");
    let w = to_chars("WARNING:");
    let ce = to_chars("compilation error");
    let cw = to_chars("compilation warning");
    let mut i: usize = 0;
    proof {
        assert(lv.skip(0) =~= lv);
    }
    while i < ls.len()
        invariant
            0 <= i <= ls.len(),
            lv == vviews(ls@),
            lv == lines(output@),
            e@ == "ERROR:"@,
            w@ == "WARNING:"@,
            ce@ == "compilation error"@,
            cw@ == "compilation warning"@,
            first_detail(lv) == first_detail(lv.skip(i as int)),
        decreases ls.len() - i,
    {
        let t = trim_vec(ls[i].as_slice());
        proof {
            assert(lv[i as int] == ls@[i as int]@);
            assert(lv.skip(i as int)[0] == lv[i as int]);
            assert(lv.skip(i as int).drop_first() =~= lv.skip(i + 1));
        }
        if (starts_with_exec(t.as_slice(), e.as_slice()) || starts_with_exec(t.as_slice(), w.as_slice()))
            && !contains_exec(t.as_slice(), ce.as_slice()) && !contains_exec(t.as_slice(), cw.as_slice()) {
            return t;
        }
        i = i + 1;
    }
    proof {
        assert(lv.skip(i as int).len() == 0);
    }
    to_chars("unknown error")
}

/// Every diagnostic one validator run yields: a tooling error when the
/// validator is missing or could not run; otherwise the mapped output, and when
/// a failed run yields nothing parseable, a tooling error naming the failure —
/// a failed run never passes silently.
pub open spec fn check_assembled_spec(a: AssembledModel, run: RunModel) -> Seq<DiagModel> {
    match run {
        RunModel::NotFound => seq![tool_error_spec(a.target, not_found_message())],
        RunModel::Failed(e) => seq![tool_error_spec(a.target, "failed to run glslangValidator: "@ + e)],
        RunModel::Ran { output, success } => {
            let diags = parse_output_spec(a, output);
            if diags.len() == 0 && !success {
                seq![tool_error_spec(a.target, "glslangValidator failed: "@ + failure_detail_spec(output))]
            } else {
                diags
            }
        },
    }
}

/// The diagnostics of one validator run over an assembled unit.
pub fn check_assembled(a: &Assembled, run: &RunOutcome) -> (r: Vec<Diag>)
    ensures
        diags_view(r@) == check_assembled_spec(a@, run@),
{
    match run {
        RunOutcome::NotFound => {
            let d = tool_error(a, to_string(
                "glslangValidator not found on PATH — install with `brew install glslang`, or set GLSLINT_GLSLANG to its path",
            ));
            let mut out: Vec<Diag> = Vec::new();
            push_diag(&mut out, d);
            proof {
                assert(diags_view(out@) =~= check_assembled_spec(a@, run@));
            }
            out
        },
        RunOutcome::Failed(e) => {
            let mut m = to_chars("failed to run glslangValidator: ");
            let ec = to_chars(e.as_str());
            extend_chars(&mut m, ec.as_slice());
            let d = tool_error(a, from_chars(m.as_slice()));
            let mut out: Vec<Diag> = Vec::new();
            push_diag(&mut out, d);
            proof {
                assert(diags_view(out@) =~= check_assembled_spec(a@, run@));
            }
            out
        },
        RunOutcome::Ran { output, success } => {
            let diags = parse_output(a, output.as_str());
            if diags.len() == 0 && !*success {
                let mut m = to_chars("glslangValidator failed: ");
                let detail = failure_detail(output.as_str());
                extend_chars(&mut m, detail.as_slice());
                let d = tool_error(a, from_chars(m.as_slice()));
                let mut out: Vec<Diag> = Vec::new();
                push_diag(&mut out, d);
                proof {
                    assert(diags_view(out@) =~= check_assembled_spec(a@, run@));
                }
                out
            } else {
                diags
            }
        },
    }
}

// ---------------------------------------------------------------------------
// Ordering
// ---------------------------------------------------------------------------

/// Text order: character by character, by code point (the order of the UTF-8
/// bytes), a proper prefix first.
pub open spec fn text_lt(p: Seq<char>, q: Seq<char>) -> bool
    decreases p.len(),
{
    if p.len() == 0 {
        q.len() > 0
    } else if q.len() == 0 {
        false
    } else if p[0] == q[0] {
        text_lt(p.drop_first(), q.drop_first())
    } else {
        p[0] < q[0]
    }
}

/// Component order, as `std::path::Component` orders: the root, then a leading
/// `.`, then `..`, then names by their text.
pub open spec fn component_lt(a: Component, b: Component) -> bool {
    a.0 < b.0 || (a.0 == b.0 && text_lt(a.1, b.1))
}

/// Lexicographic order on component sequences, a proper prefix first.
pub open spec fn components_lt(x: Seq<Component>, y: Seq<Component>) -> bool
    decreases x.len(),
{
    if x.len() == 0 {
        y.len() > 0
    } else if y.len() == 0 {
        false
    } else if x[0] == y[0] {
        components_lt(x.drop_first(), y.drop_first())
    } else {
        component_lt(x[0], y[0])
    }
}

/// Strict path order, as `Path` orders: component by component
/// (`a/b` before `a//c`, and `a/./b` the same path as `a/b`).
pub open spec fn path_lt(p: Seq<char>, q: Seq<char>) -> bool {
    components_lt(components(p), components(q))
}

/// `p` and `q` are equal as `Path`s: they have the same components.
pub open spec fn path_eq(p: Seq<char>, q: Seq<char>) -> bool {
    components(p) == components(q)
}

/// Diagnostic order: by path, then line, then column.
pub open spec fn diag_lt(a: DiagModel, b: DiagModel) -> bool {
    path_lt(a.path, b.path) || (path_eq(a.path, b.path) && (a.line < b.line || (a.line == b.line
        && a.col < b.col)))
}

/// `d` placed after every element of `s` that does not sort after it, counting
/// from the end.
pub open spec fn insert_sorted(s: Seq<DiagModel>, d: DiagModel) -> Seq<DiagModel>
    decreases s.len(),
{
    if s.len() == 0 {
        seq![d]
    } else if diag_lt(d, s.last()) {
        insert_sorted(s.drop_last(), d).push(s.last())
    } else {
        s.push(d)
    }
}

/// The stable sort of `s` by `diag_lt`: diagnostics with the same position keep
/// their order.
pub open spec fn sort_diags_spec(s: Seq<DiagModel>) -> Seq<DiagModel>
    decreases s.len(),
{
    if s.len() == 0 {
        seq![]
    } else {
        insert_sorted(sort_diags_spec(s.drop_last()), s.last())
    }
}

proof fn lemma_text_lt_skip(p: Seq<char>, q: Seq<char>, i: int)
    requires
        0 <= i <= p.len(),
        i <= q.len(),
        forall|k: int| 0 <= k < i ==> p[k] == q[k],
    ensures
        text_lt(p, q) == text_lt(p.skip(i), q.skip(i)),
    decreases i,
{
    if i == 0 {
        assert(p.skip(0) =~= p);
        assert(q.skip(0) =~= q);
    } else {
        lemma_text_lt_skip(p.drop_first(), q.drop_first(), i - 1);
        assert(p.drop_first().skip(i - 1) =~= p.skip(i));
        assert(q.drop_first().skip(i - 1) =~= q.skip(i));
    }
}

fn text_less(p: &[char], q: &[char]) -> (r: bool)
    ensures
        r == text_lt(p@, q@),
{
    let mut i: usize = 0;
    while i < p.len() && i < q.len() && p[i] == q[i]
        invariant
            0 <= i <= p.len(),
            i <= q.len(),
            forall|k: int| 0 <= k < i ==> p@[k] == q@[k],
        decreases p.len() - i,
    {
        i = i + 1;
    }
    proof {
        lemma_text_lt_skip(p@, q@, i as int);
    }
    if i == p.len() {
        i < q.len()
    } else if i == q.len() {
        false
    } else {
        proof {
            assert(p@.skip(i as int)[0] == p@[i as int]);
            assert(q@.skip(i as int)[0] == q@[i as int]);
        }
        p[i] < q[i]
    }
}

proof fn lemma_components_lt_skip(x: Seq<Component>, y: Seq<Component>, i: int)
    requires
        0 <= i <= x.len(),
        i <= y.len(),
        forall|k: int| 0 <= k < i ==> x[k] == y[k],
    ensures
        components_lt(x, y) == components_lt(x.skip(i), y.skip(i)),
    decreases i,
{
    if i == 0 {
        assert(x.skip(0) =~= x);
        assert(y.skip(0) =~= y);
    } else {
        lemma_components_lt_skip(x.drop_first(), y.drop_first(), i - 1);
        assert(x.drop_first().skip(i - 1) =~= x.skip(i));
        assert(y.drop_first().skip(i - 1) =~= y.skip(i));
    }
}

/// Whether the component `(a, at)` equals `(b, bt)`, and whether it sorts before it.
fn component_compare(a: u8, at: &[char], b: u8, bt: &[char]) -> (r: (bool, bool))
    ensures
        r.0 == ((a as int, at@) == (b as int, bt@)),
        r.1 == component_lt((a as int, at@), (b as int, bt@)),
{
    let same = a == b && eq_chars(at, bt);
    let less = a < b || (a == b && text_less(at, bt));
    (same, less)
}

/// Whether `p` sorts before `q` as a `Path`.
pub fn path_less(p: &[char], q: &[char]) -> (r: bool)
    ensures
        r == path_lt(p@, q@),
{
    let x = components_exec(p);
    let y = components_exec(q);
    let ghost xv = components_view(x@);
    let ghost yv = components_view(y@);
    let mut i: usize = 0;
    loop
        invariant
            0 <= i <= x.len(),
            i <= y.len(),
            xv == components_view(x@),
            yv == components_view(y@),
            xv == components(p@),
            yv == components(q@),
            forall|k: int| 0 <= k < i ==> xv[k] == yv[k],
        decreases x.len() - i,
    {
        proof {
            lemma_components_lt_skip(xv, yv, i as int);
        }
        if i == x.len() {
            return i < y.len();
        }
        if i == y.len() {
            return false;
        }
        let (same, less) = component_compare(x[i].0, x[i].1.as_slice(), y[i].0, y[i].1.as_slice());
        proof {
            assert(xv[i as int] == (x@[i as int].0 as int, x@[i as int].1@));
            assert(yv[i as int] == (y@[i as int].0 as int, y@[i as int].1@));
            assert(xv.skip(i as int)[0] == xv[i as int]);
            assert(yv.skip(i as int)[0] == yv[i as int]);
            assert(xv.skip(i as int).drop_first() =~= xv.skip(i + 1));
            assert(yv.skip(i as int).drop_first() =~= yv.skip(i + 1));
        }
        if !same {
            return less;
        }
        i = i + 1;
    }
}

/// Whether `p` and `q` are equal as `Path`s.
pub fn path_equal(p: &[char], q: &[char]) -> (r: bool)
    ensures
        r == path_eq(p@, q@),
{
    let x = components_exec(p);
    let y = components_exec(q);
    let ghost xv = components_view(x@);
    let ghost yv = components_view(y@);
    if x.len() != y.len() {
        proof {
            assert(xv.len() != yv.len());
        }
        return false;
    }
    let mut i: usize = 0;
    while i < x.len()
        invariant
            0 <= i <= x.len(),
            x.len() == y.len(),
            xv == components_view(x@),
            yv == components_view(y@),
            xv == components(p@),
            yv == components(q@),
            forall|k: int| 0 <= k < i ==> xv[k] == yv[k],
        decreases x.len() - i,
    {
        let (same, _less) = component_compare(x[i].0, x[i].1.as_slice(), y[i].0, y[i].1.as_slice());
        proof {
            assert(xv[i as int] == (x@[i as int].0 as int, x@[i as int].1@));
            assert(yv[i as int] == (y@[i as int].0 as int, y@[i as int].1@));
        }
        if !same {
            return false;
        }
        i = i + 1;
    }
    proof {
        assert(xv =~= yv);
    }
    true
}

fn diag_less(a: &Diag, b: &Diag) -> (r: bool)
    ensures
        r == diag_lt(a@, b@),
{
    let ap = to_chars(a.path.as_str());
    let bp = to_chars(b.path.as_str());
    if path_less(ap.as_slice(), bp.as_slice()) {
        true
    } else if path_equal(ap.as_slice(), bp.as_slice()) {
        a.line < b.line || (a.line == b.line && a.col < b.col)
    } else {
        false
    }
}

proof fn lemma_insert_sorted_at(s: Seq<DiagModel>, d: DiagModel, j: int)
    requires
        0 <= j <= s.len(),
        forall|k: int| j <= k < s.len() ==> diag_lt(d, #[trigger] s[k]),
        j == 0 || !diag_lt(d, s[j - 1]),
    ensures
        insert_sorted(s, d) == s.take(j).push(d) + s.skip(j),
    decreases s.len(),
{
    if s.len() == 0 {
        assert(s.take(j).push(d) + s.skip(j) =~= seq![d]);
    } else if j == s.len() {
        assert(s.take(j).push(d) + s.skip(j) =~= s.push(d));
    } else {
        let t = s.drop_last();
        assert(diag_lt(d, s[s.len() - 1]));
        assert forall|k: int| j <= k < t.len() implies diag_lt(d, #[trigger] t[k]) by {
            assert(t[k] == s[k]);
        }
        if j > 0 {
            assert(t[j - 1] == s[j - 1]);
        }
        lemma_insert_sorted_at(t, d, j);
        assert(t.take(j).push(d) + t.skip(j) + seq![s.last()] =~= s.take(j).push(d) + s.skip(j));
    }
}

/// Sort diagnostics by path, line and column, keeping the order of equals.
pub fn sort_diags(v: &Vec<Diag>) -> (r: Vec<Diag>)
    ensures
        diags_view(r@) == sort_diags_spec(diags_view(v@)),
{
    let ghost dv = diags_view(v@);
    let mut out: Vec<Diag> = Vec::new();
    let mut i: usize = 0;
    proof {
        assert(diags_view(out@) =~= sort_diags_spec(dv.take(0)));
    }
    while i < v.len()
        invariant
            0 <= i <= v.len(),
            dv == diags_view(v@),
            diags_view(out@) == sort_diags_spec(dv.take(i as int)),
        decreases v.len() - i,
    {
        let d = v[i].copy();
        proof {
            assert(dv[i as int] == d@);
            assert(dv.take(i + 1).drop_last() =~= dv.take(i as int));
            assert(dv.take(i + 1).last() == d@);
        }
        let mut j: usize = out.len();
        while j > 0 && diag_less(&d, &out[j - 1])
            invariant
                0 <= j <= out@.len(),
                forall|k: int| j <= k < out@.len() ==> diag_lt(d@, #[trigger] diags_view(out@)[k]),
            decreases j,
        {
            proof {
                assert(diags_view(out@)[j - 1] == out@[j - 1]@);
            }
            j = j - 1;
        }
        proof {
            if j > 0 {
                assert(diags_view(out@)[j - 1] == out@[j - 1]@);
            }
            lemma_insert_sorted_at(diags_view(out@), d@, j as int);
        }
        let ghost ob = out@;
        let ghost d_view = d@;
        out.insert(j, d);
        proof {
            assert(diags_view(out@) =~= diags_view(ob).take(j as int).push(d_view) + diags_view(ob).skip(j as int));
        }
        i = i + 1;
    }
    proof {
        assert(dv.take(i as int) =~= dv);
    }
    out
}

/// Everything `check` reports for one shader: the validator's diagnostics on
/// its assembled unit and the lint findings on its own text, ordered by path
/// (component by component, as `Path` orders), line and column.
pub open spec fn check_source_spec(
    target: Seq<char>,
    source: Seq<char>,
    cfg: ConfigModel,
    ws: WorkspaceModel,
    run: RunModel,
) -> Seq<DiagModel> {
    sort_diags_spec(
        check_assembled_spec(assemble_spec(target, source, cfg, ws), run) + run_lints_spec(target, source),
    )
}

/// Check one shader: `run` is the validator's run over the unit that
/// [`assemble`] builds from the same inputs.
pub fn check_source(target: &str, source: &str, config: &Config, ws: &Workspace, run: &RunOutcome) -> (r: Vec<
    Diag,
>)
    requires
        crate::text::lines_fit(source@),
    ensures
        diags_view(r@) == check_source_spec(target@, source@, config@, ws@, run@),
{
    let assembled = assemble(target, source, config, ws);
    let mut diags = check_assembled(&assembled, run);
    let lints = run_lints(target, source);
    append_diags(&mut diags, lints);
    sort_diags(&diags)
}

// ---------------------------------------------------------------------------
// Laws
// ---------------------------------------------------------------------------

/// No two diagnostics share a `(path, line)`, paths compared as `Path`s.
pub open spec fn one_per_line(ds: Seq<DiagModel>) -> bool {
    forall|i: int, j: int| 0 <= i < j < ds.len() ==> !same_key(#[trigger] ds[i], #[trigger] ds[j])
}

/// `ds[i]` is the first diagnostic of its `(path, line)`.
pub open spec fn first_of_line(ds: Seq<DiagModel>, i: int) -> bool {
    forall|k: int| 0 <= k < i ==> !same_key(#[trigger] ds[k], ds[i])
}

proof fn lemma_collapse_kept_are_first(ds: Seq<DiagModel>)
    ensures
        forall|j: int| 0 <= j < collapse_spec(ds).len() ==> exists|i: int| 0 <= i < ds.len() && #[trigger] collapse_spec(ds)[j] == #[trigger] ds[i] && first_of_line(ds, i),
    decreases ds.len(),
{
    if ds.len() > 0 {
        let t = ds.drop_last();
        let prev = collapse_spec(t);
        lemma_collapse_kept_are_first(t);
        let r = collapse_spec(ds);
        assert forall|j: int| 0 <= j < prev.len() implies exists|i: int| 0 <= i < ds.len() && #[trigger] prev[j] == #[trigger] ds[i] && first_of_line(ds, i) by {
            let i = choose|i: int| 0 <= i < t.len() && #[trigger] prev[j] == #[trigger] t[i] && first_of_line(t, i);
            assert(prev[j] == ds[i]);
            assert forall|k: int| 0 <= k < i implies !same_key(#[trigger] ds[k], ds[i]) by {
                assert(ds[k] == t[k]);
                assert(!same_key(t[k], t[i]));
            }
        }
        if !(exists|j: int| 0 <= j < ds.len() - 1 && same_key(#[trigger] ds[j], ds.last())) {
            assert forall|j: int| 0 <= j < r.len() implies exists|i: int| 0 <= i < ds.len() && #[trigger] r[j] == #[trigger] ds[i] && first_of_line(ds, i) by {
                if j < r.len() - 1 {
                    assert(r[j] == prev[j]);
                } else {
                    assert(r[j] == ds[ds.len() - 1]);
                    assert(first_of_line(ds, ds.len() - 1));
                }
            }
        }
    }
}

proof fn lemma_collapse_one_per_line(ds: Seq<DiagModel>)
    ensures
        one_per_line(collapse_spec(ds)),
    decreases ds.len(),
{
    if ds.len() > 0 {
        let t = ds.drop_last();
        let prev = collapse_spec(t);
        lemma_collapse_one_per_line(t);
        lemma_collapse_kept_are_first(t);
        let r = collapse_spec(ds);
        if !(exists|j: int| 0 <= j < ds.len() - 1 && same_key(#[trigger] ds[j], ds.last())) {
            assert forall|i: int, j: int| 0 <= i < j < r.len() implies !same_key(#[trigger] r[i], #[trigger] r[j]) by {
                assert(r[i] == prev[i]);
                if j == r.len() - 1 {
                    let m = choose|m: int| 0 <= m < t.len() && #[trigger] prev[i] == #[trigger] t[m] && first_of_line(t, m);
                    assert(ds[m] == t[m]);
                    assert(!same_key(ds[m], ds.last()));
                } else {
                    assert(r[j] == prev[j]);
                }
            }
        }
    }
}

proof fn lemma_collapse_keeps_every_line(ds: Seq<DiagModel>)
    ensures
        forall|i: int| 0 <= i < ds.len() ==> exists|j: int| 0 <= j < collapse_spec(ds).len() && same_key(#[trigger] collapse_spec(ds)[j], #[trigger] ds[i]),
    decreases ds.len(),
{
    if ds.len() > 0 {
        let t = ds.drop_last();
        let prev = collapse_spec(t);
        lemma_collapse_keeps_every_line(t);
        let r = collapse_spec(ds);
        assert forall|i: int| 0 <= i < ds.len() implies exists|j: int| 0 <= j < r.len() && same_key(#[trigger] r[j], #[trigger] ds[i]) by {
            if i < ds.len() - 1 {
                assert(ds[i] == t[i]);
                let j = choose|j: int| 0 <= j < prev.len() && same_key(#[trigger] prev[j], #[trigger] t[i]);
                assert(r[j] == prev[j]);
                assert(same_key(r[j], ds[i]));
            } else if exists|w: int| 0 <= w < ds.len() - 1 && same_key(#[trigger] ds[w], ds.last()) {
                let w = choose|w: int| 0 <= w < ds.len() - 1 && same_key(#[trigger] ds[w], ds.last());
                assert(ds[w] == t[w]);
                let j = choose|j: int| 0 <= j < prev.len() && same_key(#[trigger] prev[j], #[trigger] t[w]);
                assert(r[j] == prev[j]);
                assert(same_key(r[j], ds[i]));
            } else {
                assert(same_key(r[r.len() - 1], ds[i]));
            }
        }
    }
}

/// Collapsing keeps exactly one diagnostic per `(path, line)` — `a/b`, `a//b`
/// and `a/./b` being one file, as `Path`s are equal: every line that had a
/// diagnostic still has one, and the one kept is the first glslang emitted
/// there (the root cause of the cascade).
pub proof fn lemma_collapse_keeps_the_root_cause(ds: Seq<DiagModel>)
    ensures
        one_per_line(collapse_spec(ds)),
        forall|i: int| 0 <= i < ds.len() ==> exists|j: int| 0 <= j < collapse_spec(ds).len() && same_key(#[trigger] collapse_spec(ds)[j], #[trigger] ds[i]),
        forall|j: int| 0 <= j < collapse_spec(ds).len() ==> exists|i: int| 0 <= i < ds.len() && #[trigger] collapse_spec(ds)[j] == #[trigger] ds[i] && first_of_line(ds, i),
{
    lemma_collapse_kept_are_first(ds);
    lemma_collapse_one_per_line(ds);
    lemma_collapse_keeps_every_line(ds);
}

/// Messages keep their first 200 characters and never grow past 201.
pub proof fn lemma_truncated_message_is_bounded(m: Seq<char>)
    ensures
        truncate_spec(m).len() <= 201,
        truncate_spec(m).len() <= 200 ==> truncate_spec(m) == m,
        m.len() <= 200 ==> truncate_spec(m) == m,
        m.len() > 200 ==> truncate_spec(m).take(200) == m.take(200),
{
    if m.len() > 200 {
        assert(truncate_spec(m).take(200) =~= m.take(200));
    }
}

/// A run that could not happen, or that failed, never passes silently: it
/// yields at least one diagnostic; when the validator is missing or could not
/// be started, exactly one error on line 1 of the target.
pub proof fn lemma_failed_run_is_never_silent(a: AssembledModel, run: RunModel)
    requires
        !(run matches RunModel::Ran { success: true, .. }),
    ensures
        check_assembled_spec(a, run).len() > 0,
        !(run is Ran) ==> check_assembled_spec(a, run).len() == 1 && check_assembled_spec(a, run)[0].severity == Severity::Error
            && check_assembled_spec(a, run)[0].path == a.target && check_assembled_spec(a, run)[0].line == 1,
{
}

/// `d` sits on an original `(path, line)` that the unit's line map records.
pub open spec fn on_line_map(a: AssembledModel, d: DiagModel) -> bool {
    exists|k: int| 0 <= k < a.map.len() && a.map[k] == Some(LocModel { path: d.path, line: d.line })
}

proof fn lemma_scan_lands_on_map(a: AssembledModel, ls: Seq<Seq<char>>, k: int)
    ensures
        forall|i: int| 0 <= i < scan_output(a, ls, k).0.len() ==> on_line_map(a, #[trigger] scan_output(a, ls, k).0[i]),
    decreases k,
{
    if k > 0 {
        lemma_scan_lands_on_map(a, ls, k - 1);
        let prev = scan_output(a, ls, k - 1);
        let cur = scan_output(a, ls, k);
        reveal(scan_step);
        assert forall|i: int| 0 <= i < cur.0.len() implies on_line_map(a, #[trigger] cur.0[i]) by {
            if i < prev.0.len() {
                assert(cur.0[i] == prev.0[i]);
            } else {
                let (sev, rest) = classify(ls[k - 1]).unwrap();
                let (ln, tok, msg) = parse_located_spec(rest).unwrap();
                let d = map_located_spec(a, ln, tok, sev, msg).unwrap();
                assert(cur.0[i] == d);
                let idx = ln - 1;
                assert(a.map[idx] == Some(LocModel { path: d.path, line: d.line }));
            }
        }
    }
}

/// Every validator diagnostic is mapped home: it sits on an original
/// `(path, line)` recorded in the unit's line map — never on a line of the
/// assembled unit — except a file-level message, reported only when nothing
/// located mapped, which is pinned to line 1 of the target.
pub proof fn lemma_diagnostics_land_on_original_lines(a: AssembledModel, output: Seq<char>)
    ensures
        forall|i: int| 0 <= i < parse_output_spec(a, output).len() ==> {
            let d = #[trigger] parse_output_spec(a, output)[i];
            on_line_map(a, d) || (d.path == a.target && d.line == 1 && d.col == 1)
        },
{
    let ls = lines(output);
    let (mapped, fileless) = scan_output(a, ls, ls.len() as int);
    lemma_scan_lands_on_map(a, ls, ls.len() as int);
    let r = parse_output_spec(a, output);
    if mapped.len() > 0 {
        lemma_collapse_keeps_the_root_cause(mapped);
        assert forall|j: int| 0 <= j < r.len() implies on_line_map(a, #[trigger] r[j]) by {
            let i = choose|i: int| 0 <= i < mapped.len() && #[trigger] r[j] == #[trigger] mapped[i] && first_of_line(mapped, i);
        }
    }
}

proof fn lemma_text_lt_order(a: Seq<char>, b: Seq<char>, c: Seq<char>)
    ensures
        !text_lt(a, a),
        text_lt(a, b) ==> !text_lt(b, a),
        text_lt(a, b) && text_lt(b, c) ==> text_lt(a, c),
        a != b ==> text_lt(a, b) || text_lt(b, a),
    decreases a.len(),
{
    if a.len() > 0 && b.len() > 0 && c.len() > 0 {
        lemma_text_lt_order(a.drop_first(), b.drop_first(), c.drop_first());
    } else if a.len() > 0 && b.len() > 0 {
        lemma_text_lt_order(a.drop_first(), b.drop_first(), c);
    } else if a.len() > 0 {
        lemma_text_lt_order(a.drop_first(), b, c);
    }
    if a.len() > 0 && b.len() > 0 && a[0] == b[0] && a.drop_first() == b.drop_first() {
        assert(a =~= seq![a[0]] + a.drop_first());
        assert(b =~= seq![b[0]] + b.drop_first());
    }
    if a.len() == 0 && b.len() == 0 {
        assert(a =~= b);
    }
}

proof fn lemma_component_lt_order(a: Component, b: Component, c: Component)
    ensures
        !component_lt(a, a),
        component_lt(a, b) ==> !component_lt(b, a),
        component_lt(a, b) && component_lt(b, c) ==> component_lt(a, c),
        a != b ==> component_lt(a, b) || component_lt(b, a),
{
    lemma_text_lt_order(a.1, b.1, c.1);
    lemma_text_lt_order(b.1, a.1, c.1);
}

proof fn lemma_components_lt_irreflexive(x: Seq<Component>)
    ensures
        !components_lt(x, x),
    decreases x.len(),
{
    if x.len() > 0 {
        lemma_components_lt_irreflexive(x.drop_first());
    }
}

proof fn lemma_components_lt_asymmetric(x: Seq<Component>, y: Seq<Component>)
    ensures
        components_lt(x, y) ==> !components_lt(y, x),
    decreases x.len(),
{
    if x.len() > 0 && y.len() > 0 {
        lemma_component_lt_order(x[0], y[0], x[0]);
        lemma_components_lt_asymmetric(x.drop_first(), y.drop_first());
    }
}

proof fn lemma_components_lt_transitive(x: Seq<Component>, y: Seq<Component>, z: Seq<Component>)
    ensures
        components_lt(x, y) && components_lt(y, z) ==> components_lt(x, z),
    decreases x.len(),
{
    if x.len() > 0 && y.len() > 0 && z.len() > 0 {
        lemma_component_lt_order(x[0], y[0], z[0]);
        lemma_components_lt_transitive(x.drop_first(), y.drop_first(), z.drop_first());
    }
}

proof fn lemma_components_lt_total(x: Seq<Component>, y: Seq<Component>)
    ensures
        x != y ==> components_lt(x, y) || components_lt(y, x),
    decreases x.len(),
{
    if x.len() > 0 && y.len() > 0 {
        lemma_component_lt_order(x[0], y[0], x[0]);
        lemma_components_lt_total(x.drop_first(), y.drop_first());
        if x[0] == y[0] && x.drop_first() == y.drop_first() {
            assert(x =~= seq![x[0]] + x.drop_first());
            assert(y =~= seq![y[0]] + y.drop_first());
        }
    } else if x.len() == 0 && y.len() == 0 {
        assert(x =~= y);
    }
}

proof fn lemma_components_lt_order(x: Seq<Component>, y: Seq<Component>, z: Seq<Component>)
    ensures
        !components_lt(x, x),
        components_lt(x, y) ==> !components_lt(y, x),
        components_lt(x, y) && components_lt(y, z) ==> components_lt(x, z),
        x != y ==> components_lt(x, y) || components_lt(y, x),
{
    lemma_components_lt_irreflexive(x);
    lemma_components_lt_asymmetric(x, y);
    lemma_components_lt_transitive(x, y, z);
    lemma_components_lt_total(x, y);
}

/// No path sorts before itself.
pub proof fn lemma_path_lt_irreflexive(p: Seq<char>)
    ensures
        !path_lt(p, p),
{
    lemma_components_lt_order(components(p), components(p), components(p));
}

/// Path order is asymmetric.
pub proof fn lemma_path_lt_asymmetric(p: Seq<char>, q: Seq<char>)
    ensures
        path_lt(p, q) ==> !path_lt(q, p),
{
    lemma_components_lt_order(components(p), components(q), components(p));
}

/// Path order is transitive.
pub proof fn lemma_path_lt_transitive(p: Seq<char>, q: Seq<char>, r: Seq<char>)
    ensures
        path_lt(p, q) && path_lt(q, r) ==> path_lt(p, r),
{
    lemma_components_lt_order(components(p), components(q), components(r));
}

/// Two paths that are not equal as `Path`s are ordered one way or the other;
/// two that are equal are not ordered at all.
pub proof fn lemma_path_lt_total(p: Seq<char>, q: Seq<char>)
    ensures
        !path_eq(p, q) ==> path_lt(p, q) || path_lt(q, p),
        path_eq(p, q) ==> !path_lt(p, q),
{
    lemma_components_lt_order(components(p), components(q), components(p));
}

/// Whatever lies between two ordered paths is ordered against one of them.
pub proof fn lemma_path_lt_between(p: Seq<char>, q: Seq<char>, r: Seq<char>)
    ensures
        path_lt(p, r) ==> path_lt(p, q) || path_lt(q, r),
{
    lemma_components_lt_order(components(p), components(q), components(r));
    lemma_components_lt_order(components(q), components(p), components(r));
    lemma_components_lt_order(components(p), components(r), components(q));
    lemma_components_lt_order(components(r), components(q), components(p));
}

proof fn lemma_diag_lt_order(a: DiagModel, b: DiagModel, c: DiagModel)
    ensures
        diag_lt(a, b) ==> !diag_lt(b, a),
        diag_lt(a, c) ==> diag_lt(a, b) || diag_lt(b, c),
{
    lemma_path_lt_irreflexive(a.path);
    lemma_path_lt_irreflexive(b.path);
    lemma_path_lt_asymmetric(a.path, b.path);
    lemma_path_lt_total(a.path, b.path);
    lemma_path_lt_total(b.path, c.path);
    lemma_path_lt_transitive(a.path, b.path, c.path);
    lemma_path_lt_transitive(b.path, a.path, c.path);
    lemma_path_lt_transitive(a.path, c.path, b.path);
    lemma_path_lt_transitive(c.path, b.path, a.path);
    lemma_path_lt_asymmetric(a.path, c.path);
    lemma_path_lt_asymmetric(b.path, c.path);
    lemma_path_lt_total(a.path, c.path);
    lemma_path_lt_between(a.path, b.path, c.path);
}

/// Ordered by path, then line, then column: no diagnostic sorts before one
/// that precedes it.
pub open spec fn diags_sorted(s: Seq<DiagModel>) -> bool {
    forall|i: int, j: int| 0 <= i < j < s.len() ==> !diag_lt(#[trigger] s[j], #[trigger] s[i])
}

proof fn lemma_insert_sorted(s: Seq<DiagModel>, d: DiagModel)
    requires
        diags_sorted(s),
    ensures
        diags_sorted(insert_sorted(s, d)),
        insert_sorted(s, d).to_multiset() =~= s.to_multiset().insert(d),
    decreases s.len(),
{
    broadcast use vstd::seq_lib::group_to_multiset_ensures;

    if s.len() > 0 {
        let t = s.drop_last();
        let l = s.last();
        assert(s =~= t.push(l));
        if diag_lt(d, l) {
            assert(diags_sorted(t)) by {
                assert forall|i: int, j: int| 0 <= i < j < t.len() implies !diag_lt(#[trigger] t[j], #[trigger] t[i]) by {
                    assert(t[i] == s[i] && t[j] == s[j]);
                }
            }
            lemma_insert_sorted(t, d);
            let u = insert_sorted(t, d);
            let r = u.push(l);
            assert forall|i: int, j: int| 0 <= i < j < r.len() implies !diag_lt(#[trigger] r[j], #[trigger] r[i]) by {
                if j == r.len() - 1 {
                    assert(r[i] == u[i]);
                    assert(u.to_multiset().count(u[i]) > 0);
                    assert(u.contains(u[i]));
                    if u[i] == d {
                        lemma_diag_lt_order(d, l, l);
                    } else {
                        assert(t.to_multiset().count(u[i]) > 0);
                        assert(t.contains(u[i]));
                        let k = choose|k: int| 0 <= k < t.len() && t[k] == u[i];
                        assert(s[k] == t[k]);
                        assert(s[s.len() - 1] == l);
                    }
                } else {
                    assert(r[i] == u[i] && r[j] == u[j]);
                }
            }
        } else {
            let r = s.push(d);
            assert forall|i: int, j: int| 0 <= i < j < r.len() implies !diag_lt(#[trigger] r[j], #[trigger] r[i]) by {
                if j == r.len() - 1 {
                    assert(r[i] == s[i]);
                    if i < s.len() - 1 {
                        lemma_diag_lt_order(d, l, s[i]);
                        assert(!diag_lt(s[s.len() - 1], s[i]));
                    }
                } else {
                    assert(r[i] == s[i] && r[j] == s[j]);
                }
            }
        }
    }
}

/// The ordering step is a sort: its result is ordered by path, line and column,
/// and holds exactly the diagnostics it was given.
pub proof fn lemma_sort_orders_and_keeps_every_diagnostic(s: Seq<DiagModel>)
    ensures
        diags_sorted(sort_diags_spec(s)),
        sort_diags_spec(s).to_multiset() =~= s.to_multiset(),
    decreases s.len(),
{
    broadcast use vstd::seq_lib::group_to_multiset_ensures;

    if s.len() > 0 {
        lemma_sort_orders_and_keeps_every_diagnostic(s.drop_last());
        lemma_insert_sorted(sort_diags_spec(s.drop_last()), s.last());
        assert(s =~= s.drop_last().push(s.last()));
    }
}

/// What `check` reports for a shader is ordered by path, line and column, and
/// is exactly the validator's diagnostics on the assembled unit together with
/// the lint findings on the source — nothing added, nothing lost.
pub proof fn lemma_check_source_is_ordered_and_complete(
    target: Seq<char>,
    source: Seq<char>,
    cfg: ConfigModel,
    ws: WorkspaceModel,
    run: RunModel,
)
    ensures
        diags_sorted(check_source_spec(target, source, cfg, ws, run)),
        check_source_spec(target, source, cfg, ws, run).to_multiset() =~= (check_assembled_spec(
            assemble_spec(target, source, cfg, ws),
            run,
        ) + run_lints_spec(target, source)).to_multiset(),
{
    lemma_sort_orders_and_keeps_every_diagnostic(
        check_assembled_spec(assemble_spec(target, source, cfg, ws), run) + run_lints_spec(target, source),
    );
}

/// End to end: every diagnostic a validator run yields for a shader is a
/// tooling or file-level message on line 1 of the shader, or sits on a line of
/// a source file — the shader itself or a workspace file spliced into it —
/// that holds the very line glslang reported on (verbatim, or a line of the
/// expansion of the directive written there).
pub proof fn lemma_validator_diagnostics_land_on_real_lines(
    target: Seq<char>,
    source: Seq<char>,
    cfg: ConfigModel,
    ws: WorkspaceModel,
    run: RunModel,
)
    requires
        lines(source).len() < u32::MAX,
        line_counts_fit(ws.files),
    ensures
        ({
            let a = assemble_spec(target, source, cfg, ws);
            let r = check_assembled_spec(a, run);
            forall|i: int| 0 <= i < r.len() ==> {
                let d = #[trigger] r[i];
                ||| d.path == target && d.line == 1
                ||| exists|k: int| 0 <= k < a.map.len() && a.map[k] == Some(LocModel { path: d.path, line: d.line })
                    && faithful_line(lines(a.source)[k], LocModel { path: d.path, line: d.line }, target, source, ws.files)
            }
        }),
{
    let a = assemble_spec(target, source, cfg, ws);
    let r = check_assembled_spec(a, run);
    lemma_assembled_lines_come_from_their_sources(target, source, cfg, ws);
    assert(a.target == target);
    if let RunModel::Ran { output, success } = run {
        lemma_diagnostics_land_on_original_lines(a, output);
        assert forall|i: int| 0 <= i < r.len() implies {
            let d = #[trigger] r[i];
            ||| d.path == target && d.line == 1
            ||| exists|k: int| 0 <= k < a.map.len() && a.map[k] == Some(LocModel { path: d.path, line: d.line })
                && faithful_line(lines(a.source)[k], LocModel { path: d.path, line: d.line }, target, source, ws.files)
        } by {
            let d = r[i];
            if parse_output_spec(a, output).len() > 0 || success {
                assert(r == parse_output_spec(a, output));
                if on_line_map(a, d) {
                    let k = choose|k: int| 0 <= k < a.map.len() && a.map[k] == Some(LocModel { path: d.path, line: d.line });
                    assert(a.map[k] matches Some(l) ==> faithful_line(lines(a.source)[k], l, target, source, ws.files));
                }
            }
        }
    }
}

} // verus!
