//! The single diagnostic type every stage produces.

use vstd::prelude::*;

verus! {

/// How serious a diagnostic is.
#[derive(Debug, Clone, Copy, PartialEq, Eq, Structural)]
pub enum Severity {
    Error,
    Warning,
}

impl Severity {
    /// The word printed for this severity.
    pub fn label(self) -> (r: &'static str)
        ensures
            r@ == (match self {
                Severity::Error => "error"@,
                Severity::Warning => "warning"@,
            }),
    {
        proof {
            reveal_strlit("error");
            reveal_strlit("warning");
        }
        match self {
            Severity::Error => "error",
            Severity::Warning => "warning",
        }
    }

    /// The ANSI color the severity's label is printed in: red or yellow.
    pub fn color(self) -> (r: &'static str)
        ensures
            r@ == (match self {
                Severity::Error => "\x1b[31m"@,
                Severity::Warning => "\x1b[33m"@,
            }),
    {
        match self {
            Severity::Error => "\x1b[31m",
            Severity::Warning => "\x1b[33m",
        }
    }
}

/// A diagnostic resolved back to its *original* source file and 1-based
/// line/column — never to the assembled translation unit.
#[derive(Debug)]
pub struct Diag {
    /// File the diagnostic belongs to (the edited shader, or an injected
    /// module/prelude file when the error originates there).
    pub path: String,
    /// 1-based line within `path`.
    pub line: u32,
    /// 1-based column.
    pub col: u32,
    /// Length of the highlighted span, in chars.
    pub len: u32,
    pub severity: Severity,
    pub message: String,
    /// Which stage emitted it: "glslang" | "lint" | "glslint" | "drift".
    pub source: String,
}

pub struct DiagModel {
    pub path: Seq<char>,
    pub line: u32,
    pub col: u32,
    pub len: u32,
    pub severity: Severity,
    pub message: Seq<char>,
    pub source: Seq<char>,
}

impl View for Diag {
    type V = DiagModel;

    open spec fn view(&self) -> DiagModel {
        DiagModel {
            path: self.path@,
            line: self.line,
            col: self.col,
            len: self.len,
            severity: self.severity,
            message: self.message@,
            source: self.source@,
        }
    }
}

pub open spec fn diags_view(v: Seq<Diag>) -> Seq<DiagModel> {
    v.map_values(|d: Diag| d@)
}

/// Append `d` to `out`, keeping the views in step.
pub fn push_diag(out: &mut Vec<Diag>, d: Diag)
    ensures
        diags_view(final(out)@) == diags_view(old(out)@).push(d@),
{
    let ghost before = out@;
    let ghost dv = d@;
    out.push(d);
    proof {
        assert(diags_view(out@) =~= diags_view(before).push(dv));
    }
}

/// Append all of `ds` to `out`.
pub fn append_diags(out: &mut Vec<Diag>, ds: Vec<Diag>)
    ensures
        diags_view(final(out)@) == diags_view(old(out)@) + diags_view(ds@),
{
    let ghost a = out@;
    let ghost b = ds@;
    let mut ds = ds;
    out.append(&mut ds);
    proof {
        assert(out@ == a + b);
        assert(diags_view(a + b) =~= diags_view(a) + diags_view(b));
    }
}

// ---------------------------------------------------------------------------
// Rendering
// ---------------------------------------------------------------------------

pub open spec fn digit_char(d: nat) -> char {
    if d == 0 { '0' } else if d == 1 { '1' } else if d == 2 { '2' } else if d == 3 { '3' } else if d == 4 { '4' }
    else if d == 5 { '5' } else if d == 6 { '6' } else if d == 7 { '7' } else if d == 8 { '8' } else { '9' }
}

/// `n` in decimal, without leading zeros.
pub open spec fn decimal(n: nat) -> Seq<char>
    decreases n,
{
    if n < 10 {
        seq![digit_char(n)]
    } else {
        decimal(n / 10).push(digit_char(n % 10))
    }
}

fn digit_exec(d: u32) -> (r: char)
    requires
        d < 10,
    ensures
        r == digit_char(d as nat),
{
    if d == 0 { '0' } else if d == 1 { '1' } else if d == 2 { '2' } else if d == 3 { '3' } else if d == 4 { '4' }
    else if d == 5 { '5' } else if d == 6 { '6' } else if d == 7 { '7' } else if d == 8 { '8' } else { '9' }
}

/// Append `n` in decimal to `out`.
pub fn push_decimal(out: &mut Vec<char>, n: u32)
    ensures
        final(out)@ == old(out)@ + decimal(n as nat),
    decreases n,
{
    if n >= 10 {
        push_decimal(out, n / 10);
    }
    out.push(digit_exec(n % 10));
    proof {
        if n >= 10 {
            assert(decimal(n as nat) == decimal((n / 10) as nat).push(digit_char((n % 10) as nat)));
        }
    }
}

/// How a diagnostic is printed:
/// `path:line:col: severity: message [glslint/source]`, the severity in its
/// color and the source dimmed when `color` is set.
pub open spec fn render_spec(d: DiagModel, color: bool) -> Seq<char> {
    let (c0, c1, dim, dim0) = if color {
        (
            match d.severity {
                Severity::Error => "\x1b[31m"@,
                Severity::Warning => "\x1b[33m"@,
            },
            "\x1b[0m"@,
            "\x1b[2m"@,
            "\x1b[0m"@,
        )
    } else {
        (seq![], seq![], seq![], seq![])
    };
    d.path + ":"@ + decimal(d.line as nat) + ":"@ + decimal(d.col as nat) + ": "@ + c0 + match d.severity {
        Severity::Error => "error"@,
        Severity::Warning => "warning"@,
    } + c1 + ": "@ + d.message + " "@ + dim + "[glslint/"@ + d.source + "]"@ + dim0
}

fn push_str(out: &mut Vec<char>, s: &str)
    ensures
        final(out)@ == old(out)@ + s@,
{
    let v = crate::text::to_chars(s);
    crate::text::extend_chars(out, v.as_slice());
}

/// The line printed for `d`.
pub fn render_diag(d: &Diag, color: bool) -> (r: String)
    ensures
        r@ == render_spec(d@, color),
{
    let (c0, c1, dim, dim0) = if color {
        (d.severity.color(), "\x1b[0m", "\x1b[2m", "\x1b[0m")
    } else {
        ("", "", "", "")
    };
    proof {
        reveal_strlit("");
    }
    let mut out: Vec<char> = Vec::new();
    push_str(&mut out, d.path.as_str());
    push_str(&mut out, ":");
    push_decimal(&mut out, d.line);
    push_str(&mut out, ":");
    push_decimal(&mut out, d.col);
    push_str(&mut out, ": ");
    push_str(&mut out, c0);
    push_str(&mut out, d.severity.label());
    push_str(&mut out, c1);
    push_str(&mut out, ": ");
    push_str(&mut out, d.message.as_str());
    push_str(&mut out, " ");
    push_str(&mut out, dim);
    push_str(&mut out, "[glslint/");
    push_str(&mut out, d.source.as_str());
    push_str(&mut out, "]");
    push_str(&mut out, dim0);
    proof {
        assert(out@ =~= render_spec(d@, color));
    }
    crate::text::from_chars(out.as_slice())
}

/// How many of `ds` are errors, and how many warnings.
pub open spec fn tally_spec(ds: Seq<DiagModel>) -> (nat, nat)
    decreases ds.len(),
{
    if ds.len() == 0 {
        (0, 0)
    } else {
        let (e, w) = tally_spec(ds.drop_last());
        match ds.last().severity {
            Severity::Error => (e + 1, w),
            Severity::Warning => (e, w + 1),
        }
    }
}

proof fn lemma_tally_total(ds: Seq<DiagModel>)
    ensures
        tally_spec(ds).0 + tally_spec(ds).1 == ds.len(),
    decreases ds.len(),
{
    if ds.len() > 0 {
        lemma_tally_total(ds.drop_last());
    }
}

/// The error and warning counts of `ds`.
pub fn tally(ds: &Vec<Diag>) -> (r: (usize, usize))
    ensures
        r.0 as nat == tally_spec(diags_view(ds@)).0,
        r.1 as nat == tally_spec(diags_view(ds@)).1,
        r.0 + r.1 == ds@.len(),
{
    let ghost dv = diags_view(ds@);
    let mut e: usize = 0;
    let mut w: usize = 0;
    let mut i: usize = 0;
    while i < ds.len()
        invariant
            0 <= i <= ds.len(),
            dv == diags_view(ds@),
            e as nat == tally_spec(dv.take(i as int)).0,
            w as nat == tally_spec(dv.take(i as int)).1,
            e + w == i,
        decreases ds.len() - i,
    {
        proof {
            assert(dv.take(i + 1).drop_last() =~= dv.take(i as int));
            assert(dv.take(i + 1).last() == ds@[i as int]@);
        }
        match ds[i].severity {
            Severity::Error => e = e + 1,
            Severity::Warning => w = w + 1,
        }
        i = i + 1;
    }
    proof {
        assert(dv.take(i as int) =~= dv);
        lemma_tally_total(dv);
    }
    (e, w)
}

} // verus!
