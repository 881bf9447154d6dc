//! deck.gl's `project` builtins, read from the module GLSL that deck ships in
//! node_modules instead of a hand-written stub. deck's bodies interpolate JS
//! constants and depend on other UBOs, so they can't be spliced; the function
//! *signatures* are clean GLSL. So the signatures are extracted and:
//!   - type-correct, empty-body stubs are generated for the validator, and
//!   - each function's real declaration site is recorded, so hover shows the true
//!     signature and go-to-definition jumps into the deck source.

use vstd::prelude::*;
use crate::assemble::{Loc, LocModel};
use crate::text::{
    extend_chars, from_chars, index_of, index_of_from, is_ident, is_ident_exec, is_ws, is_ws_exec,
    lines, slice_vec, split_lines, split_whitespace, starts_with, starts_with_exec, to_chars,
    trim_start, trim_start_vec, vviews, words, eq_chars,
};

verus! {

/// One of deck's `project*` GLSL functions.
#[derive(Debug)]
pub struct ProjectFn {
    pub name: String,
    /// `ret name(params)`, parameters whitespace-normalized.
    pub signature: String,
    pub ret: String,
    /// Where the definition starts in deck's source.
    pub loc: Loc,
}

pub struct ProjectFnModel {
    pub name: Seq<char>,
    pub signature: Seq<char>,
    pub ret: Seq<char>,
    pub loc: LocModel,
}

impl View for ProjectFn {
    type V = ProjectFnModel;

    open spec fn view(&self) -> ProjectFnModel {
        ProjectFnModel { name: self.name@, signature: self.signature@, ret: self.ret@, loc: self.loc@ }
    }
}

impl ProjectFn {
    pub fn copy(&self) -> (r: ProjectFn)
        ensures
            r@ == self@,
    {
        ProjectFn {
            name: self.name.clone(),
            signature: self.signature.clone(),
            ret: self.ret.clone(),
            loc: self.loc.copy(),
        }
    }
}

pub open spec fn fns_view(v: Seq<ProjectFn>) -> Seq<ProjectFnModel> {
    v.map_values(|f: ProjectFn| f@)
}

pub proof fn lemma_fns_view_push(v: Seq<ProjectFn>, f: ProjectFn)
    ensures
        fns_view(v.push(f)) == fns_view(v).push(f@),
{
    assert(fns_view(v.push(f)) =~= fns_view(v).push(f@));
}



// ---------------------------------------------------------------------------
// Stub generation
// ---------------------------------------------------------------------------

/// The zero value a stub returns for type `t` (`None` for `void`).
pub open spec fn stub_value(t: Seq<char>) -> Option<Seq<char>> {
    if t == "void"@ {
        None
    } else if t == "bool"@ {
        Some("false"@)
    } else if t == "int"@ {
        Some("0"@)
    } else if t == "uint"@ {
        Some("0u"@)
    } else if t == "float"@ || t == "double"@ {
        Some("0.0"@)
    } else if starts_with(t, "ivec"@) {
        Some(t + "(0)"@)
    } else if starts_with(t, "uvec"@) {
        Some(t + "(0u)"@)
    } else if starts_with(t, "bvec"@) {
        Some(t + "(false)"@)
    } else if starts_with(t, "vec"@) || starts_with(t, "mat"@) {
        Some(t + "(0.0)"@)
    } else {
        Some("0.0"@)
    }
}

/// ` {}` for `void`, else ` { return <zero>; }`.
pub open spec fn stub_body_spec(t: Seq<char>) -> Seq<char> {
    match stub_value(t) {
        None => " {}"@,
        Some(v) => " { return "@ + v + "; }"@,
    }
}

fn is_lit(t: &[char], s: &str) -> (r: bool)
    ensures
        r == (t@ == s@),
{
    let c = to_chars(s);
    eq_chars(t, c.as_slice())
}

fn starts_lit(t: &[char], s: &str) -> (r: bool)
    ensures
        r == starts_with(t@, s@),
{
    let c = to_chars(s);
    starts_with_exec(t, c.as_slice())
}

fn stub_value_exec(t: &[char]) -> (r: Option<Vec<char>>)
    ensures
        match r {
            Some(v) => stub_value(t@) == Some(v@),
            None => stub_value(t@) is None,
        },
{
    if is_lit(t, "void") {
        None
    } else if is_lit(t, "bool") {
        Some(to_chars("false"))
    } else if is_lit(t, "int") {
        Some(to_chars("0"))
    } else if is_lit(t, "uint") {
        Some(to_chars("0u"))
    } else if is_lit(t, "float") || is_lit(t, "double") {
        Some(to_chars("0.0"))
    } else {
        let suffix = if starts_lit(t, "ivec") {
            "(0)"
        } else if starts_lit(t, "uvec") {
            "(0u)"
        } else if starts_lit(t, "bvec") {
            "(false)"
        } else if starts_lit(t, "vec") || starts_lit(t, "mat") {
            "(0.0)"
        } else {
            return Some(to_chars("0.0"));
        };
        let mut v = slice_vec(t, 0, t.len());
        let s = to_chars(suffix);
        extend_chars(&mut v, s.as_slice());
        proof {
            assert(t@.subrange(0, t@.len() as int) == t@);
        }
        Some(v)
    }
}

/// The stub body for return type `ret`.
pub fn stub_body(ret: &[char]) -> (r: Vec<char>)
    ensures
        r@ == stub_body_spec(ret@),
{
    match stub_value_exec(ret) {
        None => to_chars(" {}"),
        Some(v) => {
            let mut out = to_chars(" { return ");
            extend_chars(&mut out, v.as_slice());
            let tail = to_chars("; }");
            extend_chars(&mut out, tail.as_slice());
            out
        },
    }
}

pub const STUBS_HEADER: &'static str = "// deck.gl project builtins (signatures resolved from node_modules)\n";

/// Each function's signature, stub body and a newline, in order.
pub open spec fn stub_lines(fns: Seq<ProjectFnModel>) -> Seq<char>
    decreases fns.len(),
{
    if fns.len() == 0 {
        seq![]
    } else {
        stub_lines(fns.drop_last()) + fns.last().signature + stub_body_spec(fns.last().ret) + seq!['\n']
    }
}

/// Type-correct, empty-body GLSL stubs for the assembled unit: a header comment,
/// then one `signature { return <zero>; }` line per function.
pub open spec fn stubs_spec(fns: Seq<ProjectFnModel>) -> Seq<char> {
    STUBS_HEADER@ + stub_lines(fns)
}

/// Type-correct, empty-body GLSL stubs for the assembled unit.
pub fn stubs(fns: &[ProjectFn]) -> (r: String)
    ensures
        r@ == stubs_spec(fns@.map_values(|f: ProjectFn| f@)),
{
    let ghost fv = fns@.map_values(|f: ProjectFn| f@);
    let mut s = to_chars(STUBS_HEADER);
    let mut i: usize = 0;
    while i < fns.len()
        invariant
            0 <= i <= fns.len(),
            fv == fns@.map_values(|f: ProjectFn| f@),
            s@ == STUBS_HEADER@ + stub_lines(fv.take(i as int)),
        decreases fns.len() - i,
    {
        let sig = to_chars(fns[i].signature.as_str());
        extend_chars(&mut s, sig.as_slice());
        let ret = to_chars(fns[i].ret.as_str());
        let body = stub_body(ret.as_slice());
        extend_chars(&mut s, body.as_slice());
        s.push('\n');
        proof {
            assert(fv.take(i + 1).drop_last() =~= fv.take(i as int));
            assert(fv.take(i + 1).last() == fns@[i as int]@);
            assert(s@ =~= STUBS_HEADER@ + stub_lines(fv.take(i + 1)));
        }
        i = i + 1;
    }
    assert(fv.take(fns.len() as int) =~= fv);
    from_chars(s.as_slice())
}

// ---------------------------------------------------------------------------
// Signature extraction
// ---------------------------------------------------------------------------

/// The GLSL type names a `project*` function may return, in match order.
pub open spec fn glsl_types() -> Seq<Seq<char>> {
    seq![
        "void"@, "bool"@, "int"@, "uint"@, "float"@, "double"@, "vec2"@, "vec3"@, "vec4"@,
        "ivec2"@, "ivec3"@, "ivec4"@, "uvec2"@, "uvec3"@, "uvec4"@, "bvec2"@, "bvec3"@, "bvec4"@,
        "mat2x2"@, "mat3x3"@, "mat4x4"@, "mat2"@, "mat3"@, "mat4"@,
    ]
}

fn glsl_types_exec() -> (r: Vec<Vec<char>>)
    ensures
        vviews(r@) == glsl_types(),
{
    let mut v: Vec<Vec<char>> = Vec::new();
    v.push(to_chars("void"));
    v.push(to_chars("bool"));
    v.push(to_chars("int"));
    v.push(to_chars("uint"));
    v.push(to_chars("float"));
    v.push(to_chars("double"));
    v.push(to_chars("vec2"));
    v.push(to_chars("vec3"));
    v.push(to_chars("vec4"));
    v.push(to_chars("ivec2"));
    v.push(to_chars("ivec3"));
    v.push(to_chars("ivec4"));
    v.push(to_chars("uvec2"));
    v.push(to_chars("uvec3"));
    v.push(to_chars("uvec4"));
    v.push(to_chars("bvec2"));
    v.push(to_chars("bvec3"));
    v.push(to_chars("bvec4"));
    v.push(to_chars("mat2x2"));
    v.push(to_chars("mat3x3"));
    v.push(to_chars("mat4x4"));
    v.push(to_chars("mat2"));
    v.push(to_chars("mat3"));
    v.push(to_chars("mat4"));
    assert(vviews(v@) =~= glsl_types());
    v
}

/// The first type of `types` that `s` starts with, followed by whitespace:
/// `(type, the rest after it, left-trimmed)`.
pub open spec fn split_type_from(types: Seq<Seq<char>>, s: Seq<char>) -> Option<(Seq<char>, Seq<char>)>
    decreases types.len(),
{
    if types.len() == 0 {
        None
    } else {
        let t = types[0];
        let rest = s.skip(t.len() as int);
        if starts_with(s, t) && rest.len() > 0 && is_ws(rest[0]) {
            Some((t, trim_start(rest)))
        } else {
            split_type_from(types.drop_first(), s)
        }
    }
}

pub open spec fn split_type_spec(s: Seq<char>) -> Option<(Seq<char>, Seq<char>)> {
    split_type_from(glsl_types(), s)
}

/// A leading known GLSL type, returning `(type, the rest after it)`.
fn split_type(s: &[char]) -> (r: Option<(Vec<char>, Vec<char>)>)
    ensures
        match r {
            Some((t, rest)) => split_type_spec(s@) == Some((t@, rest@)),
            None => split_type_spec(s@) is None,
        },
{
    let types = glsl_types_exec();
    let mut i: usize = 0;
    assert(glsl_types().skip(0) == glsl_types());
    while i < types.len()
        invariant
            0 <= i <= types.len(),
            vviews(types@) == glsl_types(),
            split_type_spec(s@) == split_type_from(glsl_types().skip(i as int), s@),
        decreases types.len() - i,
    {
        let t = &types[i];
        proof {
            assert(glsl_types().skip(i as int)[0] == t@);
            assert(glsl_types().skip(i as int).drop_first() == glsl_types().skip(i + 1));
        }
        if starts_with_exec(s, t.as_slice()) {
            let rest = slice_vec(s, t.len(), s.len());
            proof {
                assert(rest@ == s@.skip(t@.len() as int));
            }
            if rest.len() > 0 && is_ws_exec(rest[0]) {
                let trimmed = trim_start_vec(rest.as_slice());
                let tt = slice_vec(t.as_slice(), 0, t.len());
                proof {
                    assert(t@.subrange(0, t@.len() as int) == t@);
                }
                return Some((tt, trimmed));
            }
        }
        i = i + 1;
    }
    None
}

/// Scan for the parenthesis that closes the first `(`: characters of `chunk`
/// (the rest of line `li`), then of the following lines, tracking nesting depth.
/// The outer `(` and `)` are dropped, every other character kept, and a line
/// break becomes a space. `Some((params, line of the closing paren))`, or `None`
/// when the lines run out first.
pub open spec fn paren_scan(
    lines: Seq<Seq<char>>,
    li: int,
    chunk: Seq<char>,
    depth: int,
    params: Seq<char>,
) -> Option<(Seq<char>, int)>
    decreases lines.len() - li, chunk.len(),
{
    if chunk.len() == 0 {
        if li + 1 >= lines.len() || li + 1 < 0 {
            None
        } else {
            paren_scan(lines, li + 1, lines[li + 1], depth, params.push(' '))
        }
    } else {
        let c = chunk[0];
        let rest = chunk.drop_first();
        if c == '(' {
            if depth + 1 == 1 {
                paren_scan(lines, li, rest, depth + 1, params)
            } else {
                paren_scan(lines, li, rest, depth + 1, params.push(c))
            }
        } else if c == ')' {
            if depth - 1 == 0 {
                Some((params, li))
            } else {
                paren_scan(lines, li, rest, depth - 1, params.push(c))
            }
        } else {
            paren_scan(lines, li, rest, depth, params.push(c))
        }
    }
}

pub proof fn lemma_paren_scan_bounds(
    lines: Seq<Seq<char>>,
    li: int,
    chunk: Seq<char>,
    depth: int,
    params: Seq<char>,
)
    requires
        0 <= li,
    ensures
        paren_scan(lines, li, chunk, depth, params) matches Some((p, l)) ==> li <= l && (l == li
            || l < lines.len()),
    decreases lines.len() - li, chunk.len(),
{
    if chunk.len() == 0 {
        if !(li + 1 >= lines.len() || li + 1 < 0) {
            lemma_paren_scan_bounds(lines, li + 1, lines[li + 1], depth, params.push(' '));
        }
    } else {
        let c = chunk[0];
        let rest = chunk.drop_first();
        if c == '(' {
            if depth + 1 == 1 {
                lemma_paren_scan_bounds(lines, li, rest, depth + 1, params);
            } else {
                lemma_paren_scan_bounds(lines, li, rest, depth + 1, params.push(c));
            }
        } else if c == ')' {
            if depth - 1 != 0 {
                lemma_paren_scan_bounds(lines, li, rest, depth - 1, params.push(c));
            }
        } else {
            lemma_paren_scan_bounds(lines, li, rest, depth, params.push(c));
        }
    }
}

/// Words joined by single spaces.
pub open spec fn join_spaces(ws: Seq<Seq<char>>) -> Seq<char>
    decreases ws.len(),
{
    if ws.len() == 0 {
        seq![]
    } else if ws.len() == 1 {
        ws[0]
    } else {
        join_spaces(ws.drop_last()) + seq![' '] + ws.last()
    }
}

/// Collapse every whitespace run to one space and trim both ends.
pub open spec fn normalize_ws_spec(s: Seq<char>) -> Seq<char> {
    join_spaces(words(s))
}

fn normalize_ws(s: &[char]) -> (r: Vec<char>)
    ensures
        r@ == normalize_ws_spec(s@),
{
    let ws = split_whitespace(s);
    let mut out: Vec<char> = Vec::new();
    let mut i: usize = 0;
    while i < ws.len()
        invariant
            0 <= i <= ws.len(),
            out@ == join_spaces(vviews(ws@).take(i as int)),
        decreases ws.len() - i,
    {
        if i > 0 {
            out.push(' ');
        }
        extend_chars(&mut out, ws[i].as_slice());
        proof {
            let t = vviews(ws@).take(i + 1);
            assert(t.drop_last() =~= vviews(ws@).take(i as int));
            assert(t.last() == ws@[i as int]@);
            if i == 0 {
                assert(out@ =~= join_spaces(t));
            } else {
                assert(out@ =~= join_spaces(t));
            }
        }
        i = i + 1;
    }
    assert(vviews(ws@).take(ws.len() as int) =~= vviews(ws@));
    out
}

/// The whitespace-normalized parameter list that opens at `first[open]` on line
/// `start`, and the line of its closing parenthesis.
pub open spec fn collect_paren_spec(lines: Seq<Seq<char>>, start: int, first: Seq<char>, open: int) -> Option<
    (Seq<char>, int),
> {
    match paren_scan(lines, start, first.skip(open), 0, seq![]) {
        Some((p, l)) => Some((normalize_ws_spec(p), l)),
        None => None,
    }
}

/// Collect the parameter list from a `(` at `open` in `first` (the trimmed line
/// `start`), spanning lines until the parens balance. Returns the whitespace-
/// normalized params and the line index of the closing `)`.
fn collect_paren(lines: &Vec<Vec<char>>, start: usize, first: &[char], open: usize) -> (r: Option<(Vec<char>, usize)>)
    requires
        start < lines.len(),
        open < first.len(),
        first@[open as int] == '(',
    ensures
        match r {
            Some((p, l)) => collect_paren_spec(vviews(lines@), start as int, first@, open as int) == Some((p@, l as int)),
            None => collect_paren_spec(vviews(lines@), start as int, first@, open as int) is None,
        },
{
    let ghost ls = vviews(lines@);
    let mut params: Vec<char> = Vec::new();
    // Nesting depth. It only grows by one per character consumed, so it is
    // bounded by the characters scanned, which fits in 128 bits.
    let mut depth: u128 = 0;
    let mut chunk: Vec<char> = slice_vec(first, open, first.len());
    let mut pos: usize = 0;
    let mut li: usize = start;
    proof {
        assert(chunk@ == first@.skip(open as int));
        assert(chunk@.skip(0) == chunk@);
    }
    loop
        invariant
            li < lines.len(),
            ls == vviews(lines@),
            0 <= pos <= chunk.len(),
            start <= li,
            depth as int <= (li - start) * 0x1_0000_0000_0000_0000 + pos,
            depth >= 1 || (li == start && pos == 0 && depth == 0 && chunk.len() > 0 && chunk@[0] == '('),
            paren_scan(ls, start as int, first@.skip(open as int), 0, seq![]) == paren_scan(
                ls,
                li as int,
                chunk@.skip(pos as int),
                depth as int,
                params@,
            ),
        decreases lines.len() - li, chunk.len() - pos,
    {
        if pos == chunk.len() {
            proof {
                assert(chunk@.skip(pos as int).len() == 0);
            }
            if li + 1 >= lines.len() {
                return None;
            }
            li = li + 1;
            params.push(' ');
            chunk = slice_vec(lines[li].as_slice(), 0, lines[li].len());
            pos = 0;
            proof {
                assert(lines@[li as int]@.subrange(0, lines@[li as int]@.len() as int) == lines@[li as int]@);
                assert(ls[li as int] == lines@[li as int]@);
                assert(chunk@.skip(0) == chunk@);
            }
        } else {
            let c = chunk[pos];
            proof {
                assert(chunk@.skip(pos as int)[0] == c);
                assert(chunk@.skip(pos as int).drop_first() == chunk@.skip(pos + 1));
            }
            if c == '(' {
                depth = depth + 1;
                if depth != 1 {
                    params.push(c);
                }
            } else if c == ')' {
                depth = depth - 1;
                if depth == 0 {
                    let p = normalize_ws(params.as_slice());
                    return Some((p, li));
                }
                params.push(c);
            } else {
                params.push(c);
            }
            pos = pos + 1;
        }
    }
}

/// The `project*` function whose definition starts on line `i`, with the line of
/// its closing parenthesis: the trimmed line starts with a GLSL type and
/// whitespace, then an identifier beginning with `project` directly followed by
/// `(`, and the parameter list closes within the remaining lines.
pub open spec fn fn_at(lines: Seq<Seq<char>>, i: int, path: Seq<char>) -> Option<(ProjectFnModel, int)> {
    match split_type_spec(trim_start(lines[i])) {
        None => None,
        Some((ret, rest)) => {
            let open = index_of(rest, '(');
            let name = rest.take(open);
            if open < rest.len() && starts_with(rest, "project"@) && is_ident(name) {
                match collect_paren_spec(lines, i, rest, open) {
                    None => None,
                    Some((params, close)) => Some(
                        (
                            ProjectFnModel {
                                name,
                                signature: ret + seq![' '] + name + seq!['('] + params + seq![')'],
                                ret,
                                loc: LocModel { path, line: (i + 1) as u32 },
                            },
                            close,
                        ),
                    ),
                }
            } else {
                None
            }
        },
    }
}

pub proof fn lemma_fn_at_close(lines: Seq<Seq<char>>, i: int, path: Seq<char>)
    requires
        0 <= i < lines.len(),
    ensures
        fn_at(lines, i, path) matches Some((f, close)) ==> i <= close < lines.len(),
{
    match split_type_spec(trim_start(lines[i])) {
        None => {},
        Some((ret, rest)) => {
            let open = index_of(rest, '(');
            lemma_paren_scan_bounds(lines, i, rest.skip(open), 0, seq![]);
        },
    }
}

/// Every `project*` definition, scanning lines in order and resuming after each
/// definition's closing line.
pub open spec fn extract_from(lines: Seq<Seq<char>>, i: int, path: Seq<char>) -> Seq<ProjectFnModel>
    decreases lines.len() - i,
{
    if i < 0 || i >= lines.len() {
        seq![]
    } else {
        match fn_at(lines, i, path) {
            Some((f, close)) => {
                proof {
                    lemma_fn_at_close(lines, i, path);
                }
                seq![f] + extract_from(lines, close + 1, path)
            },
            None => extract_from(lines, i + 1, path),
        }
    }
}

/// The `project*` functions defined in `text` (deck's module source at `path`).
pub open spec fn extract_fns_spec(text: Seq<char>, path: Seq<char>) -> Seq<ProjectFnModel> {
    extract_from(lines(text), 0, path)
}

fn fn_at_exec(lines: &Vec<Vec<char>>, i: usize, path: &str) -> (r: Option<(ProjectFn, usize)>)
    requires
        i < lines.len(),
        lines.len() <= u32::MAX,
    ensures
        match r {
            Some((f, c)) => fn_at(vviews(lines@), i as int, path@) == Some((f@, c as int)),
            None => fn_at(vviews(lines@), i as int, path@) is None,
        },
{
    let ghost ls = vviews(lines@);
    let t = trim_start_vec(lines[i].as_slice());
    proof {
        assert(ls[i as int] == lines@[i as int]@);
    }
    let (ret, rest) = match split_type(t.as_slice()) {
        Some(p) => p,
        None => return None,
    };
    let open = index_of_from(rest.as_slice(), '(', 0);
    proof {
        assert(rest@.skip(0) == rest@);
    }
    if open >= rest.len() {
        return None;
    }
    let name = slice_vec(rest.as_slice(), 0, open);
    proof {
        assert(name@ == rest@.take(open as int));
    }
    if !(starts_lit(rest.as_slice(), "project") && is_ident_exec(name.as_slice())) {
        return None;
    }
    match collect_paren(lines, i, rest.as_slice(), open) {
        None => None,
        Some((params, close)) => {
            let mut sig = slice_vec(ret.as_slice(), 0, ret.len());
            sig.push(' ');
            extend_chars(&mut sig, name.as_slice());
            sig.push('(');
            extend_chars(&mut sig, params.as_slice());
            sig.push(')');
            proof {
                assert(ret@.subrange(0, ret@.len() as int) == ret@);
                assert(sig@ =~= ret@ + seq![' '] + name@ + seq!['('] + params@ + seq![')']);
            }
            let line = (i as u32) + 1;
            let f = ProjectFn {
                name: from_chars(name.as_slice()),
                signature: from_chars(sig.as_slice()),
                ret: from_chars(ret.as_slice()),
                loc: Loc { path: path.to_owned(), line },
            };
            Some((f, close))
        },
    }
}

/// Append every `project*` function defined in `text` (at `path`) to `out`.
pub fn extract_fns(text: &str, path: &str, out: &mut Vec<ProjectFn>)
    requires
        lines(text@).len() <= u32::MAX,
    ensures
        fns_view(final(out)@) == fns_view(old(out)@) + extract_fns_spec(text@, path@),
{
    let cs = to_chars(text);
    let ls = split_lines(cs.as_slice());
    let ghost lv = vviews(ls@);
    let ghost start = fns_view(out@);
    let mut i: usize = 0;
    proof {
        assert(fns_view(out@) =~= start + Seq::<ProjectFnModel>::empty());
    }
    while i < ls.len()
        invariant
            lv == vviews(ls@),
            lv == lines(text@),
            ls.len() <= u32::MAX,
            start + extract_fns_spec(text@, path@) == fns_view(out@) + extract_from(lv, i as int, path@),
        decreases ls.len() - i,
    {
        match fn_at_exec(&ls, i, path) {
            Some((f, close)) => {
                let ghost before = out@;
                proof {
                    lemma_fn_at_close(lv, i as int, path@);
                }
                out.push(f);
                proof {
                    lemma_fns_view_push(before, f);
                    assert(fns_view(out@) + extract_from(lv, close + 1, path@) =~= fns_view(before) + (seq![f@] + extract_from(lv, close + 1, path@)));
                }
                i = close + 1;
            },
            None => {
                i = i + 1;
            },
        }
    }
    proof {
        assert(extract_from(lv, i as int, path@) =~= Seq::<ProjectFnModel>::empty());
        assert(fns_view(out@) + extract_from(lv, i as int, path@) =~= fns_view(out@));
    }
}

} // verus!
